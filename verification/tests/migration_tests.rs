//! Tests of the migration manager, its write batch and the temporary-database
//! bookkeeping.

use statedb::database::{Database, DBTransaction};
use statedb::error::Error;
use statedb::migration::{
    database_path, Batch, Config, DbEnv, Manager, SimpleMigration, TempIndex,
};

/// A step that replaces one exact value and passes every other pair through.
struct ValueSwap {
    version: u32,
    from: Vec<u8>,
    to: Vec<u8>,
}

impl SimpleMigration for ValueSwap {
    fn spec_version(&self) -> u32 {
        self.version
    }

    fn version(&self) -> u32 {
        self.version
    }

    fn simple_migrate(&mut self, key: Vec<u8>, value: Vec<u8>) -> Option<(Vec<u8>, Vec<u8>)> {
        if value == self.from {
            Some((key, self.to.clone()))
        } else {
            Some((key, value))
        }
    }
}

/// A step that passes every pair through unchanged.
struct Passthrough {
    version: u32,
}

impl SimpleMigration for Passthrough {
    fn spec_version(&self) -> u32 {
        self.version
    }

    fn version(&self) -> u32 {
        self.version
    }

    fn simple_migrate(&mut self, key: Vec<u8>, value: Vec<u8>) -> Option<(Vec<u8>, Vec<u8>)> {
        Some((key, value))
    }
}

fn default_config() -> Config {
    Config { batch_size: 2 }
}

#[test]
fn config_default_batch_size() {
    let c: Config = Default::default();
    assert_eq!(c.batch_size, 1024);
}

#[test]
fn chain_must_be_contiguous() {
    // registering versions 1, 2, 3 succeeds; version 5 is rejected and the
    // chain is left unchanged
    let mut manager: Manager<Passthrough> = Manager::new(default_config());
    assert!(manager.add_migration(Passthrough { version: 1 }).is_ok());
    assert!(manager.add_migration(Passthrough { version: 2 }).is_ok());
    assert!(manager.add_migration(Passthrough { version: 3 }).is_ok());
    let r = manager.add_migration(Passthrough { version: 5 });
    assert!(matches!(r, Err(Error::CannotAddMigration)));
    // the registered chain still ends at version 3
    assert!(manager.is_needed(2));
    assert!(!manager.is_needed(3));
}

#[test]
fn is_needed_empty_chain() {
    let manager: Manager<Passthrough> = Manager::new(default_config());
    assert!(!manager.is_needed(0));
}

#[test]
fn execute_without_path_fails() {
    // no step carries version 4, so migrating from version 3 is impossible
    let mut manager: Manager<Passthrough> = Manager::new(default_config());
    manager.add_migration(Passthrough { version: 1 }).unwrap();
    manager.add_migration(Passthrough { version: 2 }).unwrap();
    let mut env = DbEnv::new();
    let old_path = b"/dbs/current".to_vec();
    let r = manager.execute(&mut env, &old_path, 3);
    assert!(matches!(r, Err(Error::MigrationImpossible)));
}

#[test]
fn simple_migration_changes_value() {
    // source holds 0xAA -> "legacy"; the step rewrites "legacy" to
    // "migrated" and everything else is untouched
    let mut env = DbEnv::new();
    let old_path = b"/dbs/current".to_vec();

    let mut source = Database::new();
    let mut txn = DBTransaction::new();
    txn.put(None, vec![0xAAu8], b"legacy".to_vec());
    source.write(&txn);
    env.store(&old_path, source);

    let mut manager: Manager<ValueSwap> = Manager::new(default_config());
    manager
        .add_migration(ValueSwap { version: 2, from: b"legacy".to_vec(), to: b"migrated".to_vec() })
        .unwrap();

    let result_path = manager.execute(&mut env, &old_path, 1).unwrap();
    let migrated = env.get_db(&result_path).unwrap();
    assert_eq!(migrated.get(None, &vec![0xAAu8]), Some(&b"migrated".to_vec()));
    assert_eq!(migrated.num_entries(), 1);
    // the original database is untouched
    let original = env.get_db(&old_path).unwrap();
    assert_eq!(original.get(None, &vec![0xAAu8]), Some(&b"legacy".to_vec()));
}

#[test]
fn migration_drops_pairs_declared_obsolete() {
    struct DropAll {
        version: u32,
    }
    impl SimpleMigration for DropAll {
        fn spec_version(&self) -> u32 {
            self.version
        }

        fn version(&self) -> u32 {
            self.version
        }
        fn simple_migrate(&mut self, _key: Vec<u8>, _value: Vec<u8>) -> Option<(Vec<u8>, Vec<u8>)> {
            None
        }
    }
    let mut env = DbEnv::new();
    let old_path = b"/dbs/current".to_vec();
    let mut source = Database::new();
    let mut txn = DBTransaction::new();
    txn.put(None, vec![1u8], b"a".to_vec());
    txn.put(None, vec![2u8], b"b".to_vec());
    source.write(&txn);
    env.store(&old_path, source);

    let mut manager: Manager<DropAll> = Manager::new(default_config());
    manager.add_migration(DropAll { version: 1 }).unwrap();
    let result_path = manager.execute(&mut env, &old_path, 0).unwrap();
    let migrated = env.get_db(&result_path).unwrap();
    assert_eq!(migrated.num_entries(), 0);
}

#[test]
fn at_most_two_temporary_databases() {
    // a chain of three steps leaves exactly one temporary database behind:
    // the result; its sibling was deleted when superseded
    let mut env = DbEnv::new();
    let old_path = b"/dbs/current".to_vec();
    let mut source = Database::new();
    let mut txn = DBTransaction::new();
    txn.put(None, vec![7u8], b"seven".to_vec());
    source.write(&txn);
    env.store(&old_path, source);

    let mut manager: Manager<Passthrough> = Manager::new(default_config());
    manager.add_migration(Passthrough { version: 1 }).unwrap();
    manager.add_migration(Passthrough { version: 2 }).unwrap();
    manager.add_migration(Passthrough { version: 3 }).unwrap();

    let result_path = manager.execute(&mut env, &old_path, 0).unwrap();
    let root = database_path(&old_path);
    let one = TempIndex::One.path(&root);
    let two = TempIndex::Two.path(&root);
    // three steps end on the first temporary path
    assert_eq!(result_path, one);
    assert!(env.contains_path(&one));
    assert!(!env.contains_path(&two));
    // the environment holds the original and the result, nothing else
    assert_eq!(env.num_dbs(), 2);
    let migrated = env.get_db(&result_path).unwrap();
    assert_eq!(migrated.get(None, &vec![7u8]), Some(&b"seven".to_vec()));
}

#[test]
fn two_step_chain_ends_on_second_temp() {
    let mut env = DbEnv::new();
    let old_path = b"/dbs/current".to_vec();
    env.store(&old_path, Database::new());

    let mut manager: Manager<Passthrough> = Manager::new(default_config());
    manager.add_migration(Passthrough { version: 1 }).unwrap();
    manager.add_migration(Passthrough { version: 2 }).unwrap();

    let result_path = manager.execute(&mut env, &old_path, 0).unwrap();
    let root = database_path(&old_path);
    assert_eq!(result_path, TempIndex::Two.path(&root));
    assert!(!env.contains_path(&TempIndex::One.path(&root)));
}

#[test]
fn batch_flushes_at_threshold() {
    let config = Config { batch_size: 2 };
    let mut batch = Batch::new(&config);
    let mut dest = Database::new();
    batch.insert(vec![1u8], b"a".to_vec(), &mut dest).unwrap();
    // below the threshold: nothing written yet
    assert_eq!(dest.num_entries(), 0);
    batch.insert(vec![2u8], b"b".to_vec(), &mut dest).unwrap();
    // the threshold forced a flush
    assert_eq!(dest.num_entries(), 2);
    assert_eq!(dest.get(None, &vec![1u8]), Some(&b"a".to_vec()));
    assert_eq!(dest.get(None, &vec![2u8]), Some(&b"b".to_vec()));
}

#[test]
fn batch_commit_flushes_remainder() {
    let config = Config { batch_size: 100 };
    let mut batch = Batch::new(&config);
    let mut dest = Database::new();
    batch.insert(vec![9u8], b"z".to_vec(), &mut dest).unwrap();
    assert_eq!(dest.num_entries(), 0);
    batch.commit(&mut dest).unwrap();
    assert_eq!(dest.get(None, &vec![9u8]), Some(&b"z".to_vec()));
    // committing an empty batch writes nothing
    batch.commit(&mut dest).unwrap();
    assert_eq!(dest.num_entries(), 1);
}

#[test]
fn database_path_takes_parent_directory() {
    assert_eq!(database_path(&b"/dbs/current".to_vec()), b"/dbs".to_vec());
    assert_eq!(database_path(&b"current".to_vec()), b"".to_vec());
}

#[test]
fn temp_index_alternates() {
    let root = b"/dbs".to_vec();
    let mut idx = TempIndex::One;
    assert_eq!(idx.path(&root), b"/dbs/temp_migration_1".to_vec());
    idx.swap();
    assert_eq!(idx.path(&root), b"/dbs/temp_migration_2".to_vec());
    idx.swap();
    assert_eq!(idx.path(&root), b"/dbs/temp_migration_1".to_vec());
}

/// A step that always fails.
struct FailingStep {
    version: u32,
}

impl statedb::migration::Migration for FailingStep {
    fn spec_version(&self) -> u32 {
        self.version
    }

    fn version(&self) -> u32 {
        self.version
    }

    fn migrate(
        &mut self,
        _source: &Database,
        _config: &Config,
        _destination: &mut Database,
    ) -> Result<(), Error> {
        Err(Error::Custom("the step gave up".to_string()))
    }
}

#[test]
fn failing_step_reports_its_version() {
    let mut env = DbEnv::new();
    let old_path = b"/dbs/current".to_vec();
    env.store(&old_path, Database::new());

    let mut manager: Manager<FailingStep> = Manager::new(default_config());
    manager.add_migration(FailingStep { version: 3 }).unwrap();
    let r = manager.execute(&mut env, &old_path, 2);
    match r {
        Err(Error::StepFailed(v, inner)) => {
            assert_eq!(v, 3);
            assert!(matches!(*inner, Error::Custom(_)));
        },
        _ => panic!("expected the step failure, tagged with its version"),
    }
    // the original database is untouched by the failed migration
    assert!(env.contains_path(&old_path));
    assert_eq!(env.get_db(&old_path).unwrap().num_entries(), 0);
}
