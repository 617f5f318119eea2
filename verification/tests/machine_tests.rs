use mstate::error::Error;
use mstate::machine::StateMachine;
use mstate::store::{MapStore, StoreRead, StoreWrite};

struct CounterSM;

impl StateMachine for CounterSM {
    type Action = u8;
    type Outcome = u8;

    fn step<S: StoreWrite>(&mut self, n: u8, store: &mut S) -> Result<u8, Error> {
        // set this before checking if `n` is valid, so we can test state
        // mutations on invalid actions
        self.put(b"n", n, store)?;

        // get count, compare to n, write if successful
        let count = self.get(b"count", store)?;
        if count != n {
            return Err(Error::Store("invalid count".to_string()));
        }
        self.put(b"count", count + 1, store)?;
        Ok(count + 1)
    }
}

impl CounterSM {
    fn get<S: StoreRead>(&mut self, key: &[u8], store: &mut S) -> Result<u8, Error> {
        match store.get(key) {
            Ok(None) => Ok(0),
            Ok(Some(vec)) => Ok(vec[0]),
            Err(err) => Err(err),
        }
    }

    fn put<S: StoreWrite>(&mut self, key: &[u8], value: u8, store: &mut S) -> Result<(), Error> {
        store.put(key.to_vec(), vec![value])
    }
}

#[test]
fn step_counter_error() {
    let mut store = MapStore::new();
    // invalid `n`, should error
    assert!(CounterSM.step(100, &mut store).is_err());
    // count should not have been mutated
    assert_eq!(store.get(b"count").unwrap(), None);
    // n should have been mutated
    assert_eq!(store.get(b"n").unwrap(), Some(vec![100]));
}

#[test]
fn step_counter_error_flusher() {
    let mut store = MapStore::new();
    // invalid `n`, should error
    assert!(CounterSM.step_flush(100, &mut store).is_err());
    // count should not have been mutated
    assert_eq!(store.get(b"count").unwrap(), None);
    // n should not have been mutated
    assert_eq!(store.get(b"n").unwrap(), None);
}

#[test]
fn step_counter() {
    let mut store = MapStore::new();
    assert_eq!(CounterSM.step_flush(0, &mut store).unwrap(), 1);
    assert!(CounterSM.step_flush(0, &mut store).is_err());
    assert_eq!(CounterSM.step_flush(1, &mut store).unwrap(), 2);
    assert!(CounterSM.step_flush(1, &mut store).is_err());
    assert_eq!(store.get(b"n").unwrap(), Some(vec![1]));
    assert_eq!(store.get(b"count").unwrap(), Some(vec![2]));
}

#[test]
fn apply_changes_deletes_then_writes() {
    let mut base = MapStore::new();
    base.put(b"keep".to_vec(), vec![1]).unwrap();
    base.put(b"gone".to_vec(), vec![2]).unwrap();
    base.put(b"replaced".to_vec(), vec![3]).unwrap();

    let mut writes = MapStore::new();
    writes.put(b"replaced".to_vec(), vec![30]).unwrap();
    writes.put(b"fresh".to_vec(), vec![40]).unwrap();

    let mut deletes = MapStore::new();
    deletes.put(b"gone".to_vec(), Vec::new()).unwrap();

    mstate::machine::apply_changes(&mut base, writes, deletes).unwrap();

    assert_eq!(base.get(b"keep").unwrap(), Some(vec![1]));
    assert_eq!(base.get(b"gone").unwrap(), None);
    assert_eq!(base.get(b"replaced").unwrap(), Some(vec![30]));
    assert_eq!(base.get(b"fresh").unwrap(), Some(vec![40]));
}

#[test]
fn staged_delete_hides_base_entries() {
    let mut base = MapStore::new();
    base.put(b"k".to_vec(), vec![7]).unwrap();

    let mut staged = mstate::machine::Staged::new(&base);
    assert_eq!(staged.get(b"k").unwrap(), Some(vec![7]));
    staged.delete(b"k").unwrap();
    assert_eq!(staged.get(b"k").unwrap(), None);
    staged.put(b"k".to_vec(), vec![9]).unwrap();
    assert_eq!(staged.get(b"k").unwrap(), Some(vec![9]));

    // the base store saw none of it
    assert_eq!(base.get(b"k").unwrap(), Some(vec![7]));
}
