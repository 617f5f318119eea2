use mstate::backing::BackingStore;
use mstate::error::Error;
use mstate::plugin::{Query, QueryPlugin};
use mstate::state::{Call, Queryable, State};
use mstate::store::StoreWrite;
use mstate::store::MapStore;

#[derive(Default, Debug)]
struct Bloop {
    pub app: Intermediate,
}

#[derive(Default, Debug)]
pub struct Intermediate {
    pub baz: Baz,
    pub foo: Foo,
}

#[derive(Default, Debug)]
pub struct Foo {
    pub a: u32,
    pub b: u32,
    pub c: (u32, u32),
    pub d: Baz,
}

#[derive(Default, Debug)]
pub struct Baz {
    beep: u32,
    boop: u8,
}

pub enum BazCall {
    IncBeep(u32),
    OtherBazMethod,
}

impl Call for Baz {
    type Call = BazCall;

    fn call(&mut self, call: BazCall) -> Result<(), Error> {
        match call {
            BazCall::IncBeep(n) => {
                self.beep += n;
                Ok(())
            }
            BazCall::OtherBazMethod => Ok(()),
        }
    }
}

pub enum FooCall {
    IncA(u32),
}

impl Call for Foo {
    type Call = FooCall;

    fn call(&mut self, call: FooCall) -> Result<(), Error> {
        match call {
            FooCall::IncA(n) => {
                self.a += n;
                Ok(())
            }
        }
    }
}

pub enum IntermediateCall {
    Baz(BazCall),
    Foo(FooCall),
}

impl Call for Intermediate {
    type Call = IntermediateCall;

    fn call(&mut self, call: IntermediateCall) -> Result<(), Error> {
        match call {
            IntermediateCall::Baz(call) => self.baz.call(call),
            IntermediateCall::Foo(call) => self.foo.call(call),
        }
    }
}

pub enum BloopCall {
    App(IntermediateCall),
}

impl Call for Bloop {
    type Call = BloopCall;

    fn call(&mut self, call: BloopCall) -> Result<(), Error> {
        match call {
            BloopCall::App(call) => self.app.call(call),
        }
    }
}

#[test]
fn call_sim() -> Result<(), Error> {
    let mut bloop = Bloop::default();
    let call_one = BloopCall::App(IntermediateCall::Baz(BazCall::IncBeep(10)));
    let call_two = BloopCall::App(IntermediateCall::Baz(BazCall::IncBeep(15)));

    bloop.call(call_one)?;
    bloop.call(call_two)?;
    assert_eq!(bloop.app.baz.beep, 25);
    Ok(())
}

struct Counter {
    count: u32,
    queries_ok: bool,
}

impl State for Counter {
    fn attach(&mut self, _store: BackingStore) -> Result<(), Error> {
        Ok(())
    }

    fn flush(self) -> Result<Vec<u8>, Error> {
        Ok(Vec::new())
    }

    fn load(_store: BackingStore, _bytes: &[u8]) -> Result<Self, Error> {
        Ok(Counter { count: 0, queries_ok: true })
    }
}

pub enum CounterCall {
    Add(u32),
}

impl Call for Counter {
    type Call = CounterCall;

    fn call(&mut self, call: CounterCall) -> Result<(), Error> {
        match call {
            CounterCall::Add(n) => {
                self.count += n;
                Ok(())
            }
        }
    }
}

pub enum CounterQuery {
    Check,
}

impl Queryable for Counter {
    type Query = CounterQuery;

    fn query(&mut self, query: CounterQuery) -> Result<(), Error> {
        match query {
            CounterQuery::Check => {
                if self.queries_ok {
                    Ok(())
                } else {
                    Err(Error::Store("query refused".to_string()))
                }
            }
        }
    }
}

#[test]
fn plugin_routes_queries_calls_and_raw_keys() {
    let mut backing = MapStore::new();
    backing.put(b"present".to_vec(), vec![1]).unwrap();
    let store = BackingStore::MapStore(backing);

    let mut plugin: QueryPlugin<Counter> = QueryPlugin::load(store, &[]).unwrap();

    plugin.query(Query::Query(CounterQuery::Check)).unwrap();
    plugin.query(Query::Call(CounterCall::Add(3))).unwrap();
    assert_eq!(plugin.inner.count, 3);

    // raw key reads succeed whether or not the key is present
    plugin.query(Query::RawKey(b"present".to_vec())).unwrap();
    plugin.query(Query::RawKey(b"absent".to_vec())).unwrap();
}
