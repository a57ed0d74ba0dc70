use fri::database_vector::{
    batch_keys, decode_length, element_key, encode_length, index_key, length_key, pop_plan,
    push_plan,
};
use rusty_leveldb::{WriteBatch, DB};

/// A vector of 64-bit numbers in a store, laid out as the library says.
struct StoredVector {
    db: DB,
}

impl StoredVector {
    fn new(mut db: DB) -> Self {
        assert!(db.get(&index_key(0)).is_none());
        db.put(&length_key(), &encode_length(0)).unwrap();
        StoredVector { db }
    }

    fn restore(db: DB) -> Self {
        let mut restored = StoredVector { db };
        let _ = restored.len();
        restored
    }

    fn len(&mut self) -> u128 {
        decode_length(&self.db.get(&length_key()).expect("Length must exist")).unwrap()
    }

    fn is_empty(&mut self) -> bool {
        self.len() == 0
    }

    fn get(&mut self, index: u128) -> Option<u64> {
        let key = element_key(self.len(), index)?;
        Some(bincode::deserialize(&self.db.get(&key).unwrap()).unwrap())
    }

    fn set(&mut self, index: u128, value: u64) -> bool {
        match element_key(self.len(), index) {
            Some(key) => {
                self.db
                    .put(&key, &bincode::serialize(&value).unwrap())
                    .unwrap();
                true
            }
            None => false,
        }
    }

    fn batch_set(&mut self, indices_and_vals: &[(u128, u64)]) -> bool {
        let indices: Vec<u128> = indices_and_vals.iter().map(|(index, _)| *index).collect();
        match batch_keys(self.len(), &indices) {
            Some(keys) => {
                let mut batch_write = WriteBatch::new();
                for (key, (_, value)) in keys.iter().zip(indices_and_vals) {
                    batch_write.put(key, &bincode::serialize(value).unwrap());
                }
                self.db.write(batch_write, true).unwrap();
                true
            }
            None => false,
        }
    }

    fn push(&mut self, value: u64) {
        let (key, new_length) = push_plan(self.len()).unwrap();
        self.db
            .put(&key, &bincode::serialize(&value).unwrap())
            .unwrap();
        self.db.put(&length_key(), &new_length).unwrap();
    }

    fn pop(&mut self) -> Option<u64> {
        let (key, new_length) = pop_plan(self.len())?;
        let element = bincode::deserialize(&self.db.get(&key).unwrap()).unwrap();
        self.db.delete(&key).unwrap();
        self.db.put(&length_key(), &new_length).unwrap();
        Some(element)
    }
}

fn empty_vector() -> StoredVector {
    let opt = rusty_leveldb::in_memory();
    let db = DB::open("mydatabase", opt).unwrap();
    StoredVector::new(db)
}

#[test]
fn push_pop_test() {
    let mut db_vector = empty_vector();
    assert_eq!(0, db_vector.len());
    assert!(db_vector.is_empty());

    // pop an element and verify that `None` is returns
    assert!(db_vector.pop().is_none());
    assert_eq!(0, db_vector.len());
    assert!(db_vector.is_empty());

    // push two elements and check length and values
    db_vector.push(14442);
    db_vector.push(5558999);
    assert_eq!(Some(14442), db_vector.get(0));
    assert_eq!(Some(5558999), db_vector.get(1));
    assert_eq!(2, db_vector.len());

    // Set a value to verify that `set` works
    assert!(db_vector.set(1, 4));
    assert_eq!(Some(4), db_vector.get(1));

    // Verify that `pop` works
    assert_eq!(Some(4), db_vector.pop());
    assert_eq!(1, db_vector.len());
    assert_eq!(Some(14442), db_vector.pop());
    assert_eq!(0, db_vector.len());
    assert!(db_vector.is_empty());
}

#[test]
fn batch_set_test() {
    let mut db_vector = empty_vector();
    for _ in 0..100 {
        db_vector.push(17);
    }

    // Batch-write and verify that the values are set correctly
    assert!(db_vector.batch_set(&[(40, 4040), (41, 4141), (44, 4444)]));
    assert_eq!(Some(4040), db_vector.get(40));
    assert_eq!(Some(4141), db_vector.get(41));
    assert_eq!(Some(4444), db_vector.get(44));
    assert_eq!(Some(17), db_vector.get(39));

    // No element is written if one of the indices is none of an element.
    assert!(!db_vector.batch_set(&[(45, 4545), (100, 1)]));
    assert_eq!(Some(17), db_vector.get(45));
}

#[test]
fn push_many_test() {
    let mut db_vector = empty_vector();
    for _ in 0..1000 {
        db_vector.push(17);
    }

    assert_eq!(1000, db_vector.len());
}

#[test]
fn index_out_of_range_has_no_key() {
    let mut db_vector = empty_vector();
    assert_eq!(None, db_vector.get(0));
    db_vector.push(5558999);
    assert_eq!(None, db_vector.get(1));
    assert!(!db_vector.set(1, 14));
    assert_eq!(None, element_key(1, 1));
    assert_eq!(Some(index_key(0)), element_key(1, 0));
}

#[test]
fn restore_test() {
    // Verify that we can restore a database vector object from a database object
    let mut db_vector = empty_vector();
    assert!(db_vector.is_empty());
    let extracted_db = db_vector.db;
    let mut new_db_vector = StoredVector::restore(extracted_db);
    assert!(new_db_vector.is_empty());
}

#[test]
fn index_zero_test() {
    // Verify that index zero does not overwrite the stored length
    let mut db_vector = empty_vector();
    db_vector.push(17);
    assert_eq!(1, db_vector.len());
    assert_eq!(Some(17u64), db_vector.get(0));
    assert_eq!(17u64, db_vector.pop().unwrap());
    assert_eq!(0, db_vector.len());
    assert!(db_vector.is_empty());
}

#[test]
fn keys_are_what_bincode_writes() {
    for index in [0u128, 1, 255, 256, 1 << 64, u128::MAX] {
        assert_eq!(bincode::serialize(&index).unwrap(), index_key(index));
        assert_eq!(index_key(index), encode_length(index));
        assert_eq!(Some(index), decode_length(&index_key(index)));
    }
    assert_eq!(vec![0u8], length_key());
    assert_eq!(None, decode_length(&length_key()));
    assert_eq!(None, decode_length(&[1; 15]));
}

#[test]
fn numbers_are_sixteen_bytes_lowest_first() {
    let mut bytes = vec![0u8; 16];
    bytes[0] = 0x02;
    bytes[1] = 0x01;
    bytes[15] = 0x80;
    let number = (1u128 << 127) + 258;
    assert_eq!(bytes, index_key(number));
    assert_eq!(bytes, encode_length(number));
    assert_eq!(Some(number), decode_length(&bytes));
    assert_eq!(vec![0u8; 16], index_key(0));
    // Bytes behind the sixteenth are passed over.
    bytes.push(0xff);
    bytes.push(0x07);
    assert_eq!(Some(number), decode_length(&bytes));
}

#[test]
fn plans_name_the_element_and_the_new_length() {
    assert_eq!(Some((index_key(5), encode_length(6))), push_plan(5));
    assert_eq!(None, push_plan(u128::MAX));
    assert_eq!(Some((index_key(4), encode_length(4))), pop_plan(5));
    assert_eq!(None, pop_plan(0));
    assert_eq!(
        Some(vec![index_key(2), index_key(0), index_key(2)]),
        batch_keys(3, &[2, 0, 2])
    );
    assert_eq!(None, batch_keys(3, &[2, 3]));
    assert_eq!(Some(vec![]), batch_keys(0, &[]));
}
