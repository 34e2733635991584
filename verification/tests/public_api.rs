//! Names every item the crate root promises.

use std::sync::Arc;

use mvcc::config::OracleConfig;
use mvcc::schema::{Encodable, IndexDesc, IndexKey, RecordType};
use mvcc::stats::GcStats;
use mvcc::{
    Config, Database, Error, IsolationLevel, ReadCommitted, Ref, RepeatableRead, Result,
    Serializable, Snapshot, Timestamp, Transaction, TxnId, Versioned,
};

#[derive(Clone, Debug)]
struct Row {
    id: u64,
    tag: String,
}

impl Versioned for Row {
    type Key = u64;
    type Predicate = Arc<dyn Fn(&Row) -> bool>;

    fn key(&self) -> u64 {
        self.id
    }

    fn key_bytes(&self) -> IndexKey {
        self.id.encode()
    }

    fn index_key(&self, _position: usize) -> IndexKey {
        self.tag.encode()
    }

    fn satisfies(&self, predicate: &Self::Predicate) -> bool {
        predicate(self)
    }
}

fn names<T>() {}

fn levels<I: IsolationLevel>() {}

fn versioned<T: Versioned>() {}

#[test]
fn public_surface() -> Result<()> {
    names::<Error>();
    names::<Timestamp>();
    names::<TxnId>();
    names::<GcStats>();
    names::<OracleConfig>();
    levels::<ReadCommitted>();
    levels::<RepeatableRead>();
    levels::<Snapshot>();
    levels::<Serializable>();
    versioned::<Row>();

    let mut db: Database<Row> = Database::open(Config::in_memory())?;
    let rows = db.register(
        RecordType(0),
        "Row",
        vec![IndexDesc { name: "tag", unique: false }],
    )?;
    let tx: Transaction<Snapshot> = db.begin();
    tx.insert(&mut db, rows, Row { id: 1, tag: "a".into() })?;
    tx.commit(&mut db)?;

    let tx = db.begin_with::<Serializable>();
    let found: Vec<Ref<Row>> =
        tx.scan_where(&mut db, rows, Arc::new(|r: &Row| r.tag == "a"))?;
    assert_eq!(found.len(), 1);
    tx.commit(&mut db)?;
    let _stats: GcStats = db.stats();
    Ok(())
}
