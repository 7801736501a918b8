use bm::{
    Dangling, Error, Index, InMemoryBackend, Owned, Raw, ReadBackend, Sha256Construct, Value,
    WriteBackend,
};

/// A backend that fails every other call with an error of its own.
struct Flaky {
    inner: InMemoryBackend<Sha256Construct>,
    calls: usize,
}

impl Flaky {
    fn turn(&mut self) -> Result<(), Error> {
        self.calls += 1;
        if self.calls % 2 == 0 {
            Err(Error::Backend(7))
        } else {
            Ok(())
        }
    }
}

impl ReadBackend for Flaky {
    fn get(&mut self, key: &Vec<u8>) -> Result<(Value, Value), Error> {
        self.turn()?;
        self.inner.get(key)
    }
}

impl WriteBackend for Flaky {
    fn rootify(&mut self, key: &Vec<u8>) -> Result<(), Error> {
        self.turn()?;
        self.inner.rootify(key)
    }

    fn unrootify(&mut self, key: &Vec<u8>) -> Result<(), Error> {
        self.turn()?;
        self.inner.unrootify(key)
    }

    fn insert(&mut self, key: Vec<u8>, value: (Value, Value)) -> Result<(), Error> {
        self.turn()?;
        self.inner.insert(key, value)
    }
}

#[test]
fn errors_of_a_backend_pass_through() {
    let mut db = Flaky { inner: InMemoryBackend::default(), calls: 0 };
    let mut tree = Raw::<Owned, Sha256Construct>::default();
    let index = Index::from_one(2).unwrap();
    assert_eq!(tree.set(&mut db, index, Value::End(vec![1])), Err(Error::Backend(7)));
    assert_eq!(tree.root(), Value::End(vec![]));
    db.calls = 0;
    let mut dangling = Raw::<Dangling, Sha256Construct>::default();
    assert_eq!(dangling.set(&mut db, index, Value::End(vec![1])), Ok(()));
    assert_eq!(dangling.get(&mut db, index), Err(Error::Backend(7)));
    assert_eq!(dangling.get(&mut db, index), Ok(Some(Value::End(vec![1]))));
}
