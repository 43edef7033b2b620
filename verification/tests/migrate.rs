use rbitcoin_store::error::StoreError;
use rbitcoin_store::hashhead::HeadScale;
use rbitcoin_store::primitives::{Fk, SCHEMA_VERSION, STORE_MAGIC};
use rbitcoin_store::scripthash_migrate::{
    body_has_shal, ensure_scripthash_hybrid, is_v3_body, migrate_action, migrate_scripthash,
    recheck_hybrid, recover_partial_state, stamp_skips, stamp_store_schema, HybridAction,
    MigrateAction, MigrateFiles,
};

/// Rows and heads of the old form; chains are given oldest first.
fn v3_fixture(keys_and_chains: &[([u8; 32], &[(u64, u32)])]) -> (Vec<u8>, Vec<([u8; 32], Fk)>) {
    let mut body = Vec::new();
    let mut heads = Vec::new();
    let mut next_id = 1u64;
    for (key, chain) in keys_and_chains {
        let mut prev = 0u64;
        for &(tx, vout) in chain.iter() {
            body.extend_from_slice(&tx.to_le_bytes());
            body.extend_from_slice(&vout.to_le_bytes());
            body.extend_from_slice(&prev.to_le_bytes());
            prev = next_id;
            next_id += 1;
        }
        heads.push((*key, Fk(prev)));
    }
    (body, heads)
}

fn meta(ver: u16) -> Vec<u8> {
    let mut m = STORE_MAGIC.to_vec();
    m.extend_from_slice(&ver.to_le_bytes());
    m
}

#[test]
fn migrate_v3_linked_list_to_hybrid() {
    let mut key = [0u8; 32];
    key[0] = 0xab;
    let (body, heads) = v3_fixture(&[(key, &[(5, 0)])]);
    let (t, totals) = migrate_scripthash(HeadScale::Tiny, &body, &heads).unwrap();
    for b in &t.save().bodies {
        assert!(body_has_shal(b));
    }
    let ents = t.entries(&key).unwrap();
    assert_eq!(ents.len(), 1);
    assert_eq!(ents[0].1.create_tx_fk, Fk(5));
    assert_eq!(t.entry_count(), 1);
    assert_eq!(totals.keys, 1);

    assert_eq!(migrate_action(true, true), MigrateAction::StampAndClean); // idempotent
}

#[test]
fn migrate_multi_create_and_cleanup_work_dir() {
    let mut k1 = [0u8; 32];
    k1[0] = 1;
    let mut k2 = [0u8; 32];
    k2[0] = 2;
    let (body, heads) = v3_fixture(&[
        (k1, &[(10, 0), (11, 1), (12, 2), (13, 3), (14, 4)]),
        (k2, &[(20, 0)]),
    ]);
    // Leftover work dir from a killed migrate.
    let plan = recover_partial_state(MigrateFiles {
        body_exists: true,
        body_shal: false,
        body_v3: true,
        head_exists: true,
        work_exists: true,
        backup_exists: false,
        bak_body_exists: false,
        bak_body_v3: false,
        bak_head_exists: false,
    });
    assert!(plan.drop_work);
    assert!(!plan.restore_body);

    let (t, totals) = migrate_scripthash(HeadScale::Tiny, &body, &heads).unwrap();
    assert_eq!(t.entries(&k1).unwrap().len(), 5);
    assert_eq!(t.entries(&k2).unwrap().len(), 1);
    assert_eq!(t.entry_count(), 6);
    // Order oldest to newest
    let e1 = t.entries(&k1).unwrap();
    assert_eq!(e1[0].1.create_tx_fk, Fk(10));
    assert_eq!(e1[4].1.create_tx_fk, Fk(14));
    assert_eq!(totals.creates, 6);
}

#[test]
fn recover_restores_v3_from_backup() {
    let mut key = [0u8; 32];
    key[0] = 0xcd;
    let (body, heads) = v3_fixture(&[(key, &[(7, 1)])]);
    // Mid-swap: the primary lies in the backup.
    let plan = recover_partial_state(MigrateFiles {
        body_exists: false,
        body_shal: false,
        body_v3: false,
        head_exists: false,
        work_exists: false,
        backup_exists: true,
        bak_body_exists: true,
        bak_body_v3: true,
        bak_head_exists: true,
    });
    assert!(plan.restore_body && plan.restore_head && plan.drop_backup);
    assert!(!plan.stamp);
    assert_eq!(migrate_action(true, false), MigrateAction::Convert);
    let (t, _) = migrate_scripthash(HeadScale::Tiny, &body, &heads).unwrap();
    assert_eq!(t.entries(&key).unwrap()[0].1.create_tx_fk, Fk(7));
}

#[test]
fn broken_bodies_are_refused() {
    assert!(matches!(
        migrate_scripthash(HeadScale::Tiny, &[0u8; 7], &[]),
        Err(StoreError::Corrupt(_))
    ));
    // A row that links to itself.
    let mut body = Vec::new();
    body.extend_from_slice(&5u64.to_le_bytes());
    body.extend_from_slice(&0u32.to_le_bytes());
    body.extend_from_slice(&1u64.to_le_bytes());
    assert_eq!(
        migrate_scripthash(HeadScale::Tiny, &body, &[([1u8; 32], Fk(1))]).err(),
        Some(StoreError::Corrupt("v3 scripthash chain cycle"))
    );
    assert!(is_v3_body(false, 16 + 40));
    assert!(!is_v3_body(false, 17));
    assert!(!is_v3_body(true, 16 + 40));
}

#[test]
fn meta_decides_what_to_do_before_the_tables_open() {
    assert_eq!(
        ensure_scripthash_hybrid(None, true, false),
        Ok(HybridAction::Nothing)
    );
    assert_eq!(
        ensure_scripthash_hybrid(Some(b"nope"), true, false),
        Err(StoreError::BadMagic)
    );
    assert_eq!(
        ensure_scripthash_hybrid(Some(&meta(SCHEMA_VERSION)), true, false),
        Ok(HybridAction::Migrate)
    );
    assert_eq!(recheck_hybrid(9, false, false), Err(StoreError::BadSchema(9)));
    assert_eq!(recheck_hybrid(9, true, false), Ok(()));
}

#[test]
fn stamping_writes_the_number_behind_the_magic() {
    let stamped = stamp_store_schema(&meta(3), SCHEMA_VERSION).unwrap();
    assert_eq!(stamped, meta(SCHEMA_VERSION));
    assert!(stamp_store_schema(b"abcdef", SCHEMA_VERSION).is_none());
    assert!(stamp_skips(b"scripthash.runs"));
    assert!(stamp_skips(b"scripthash.v3.bak"));
    assert!(stamp_skips(b"scripthash.migrate"));
    assert!(!stamp_skips(b"scripthash.body"));
}

#[test]
fn a_second_migration_changes_nothing() {
    let f = MigrateFiles {
        body_exists: false,
        body_shal: false,
        body_v3: false,
        head_exists: false,
        work_exists: true,
        backup_exists: true,
        bak_body_exists: true,
        bak_body_v3: true,
        bak_head_exists: true,
    };
    let p = recover_partial_state(f);
    assert!(p.drop_work && p.restore_body && p.restore_head && p.drop_backup && !p.stamp);
    assert_eq!(migrate_action(true, false), MigrateAction::Convert);
    let done = MigrateFiles {
        body_exists: true,
        body_shal: true,
        body_v3: false,
        head_exists: true,
        work_exists: false,
        backup_exists: false,
        bak_body_exists: false,
        bak_body_v3: false,
        bak_head_exists: false,
    };
    let q = recover_partial_state(done);
    assert!(q.stamp && !q.drop_work && !q.restore_body && !q.restore_head && !q.drop_backup);
    assert_eq!(migrate_action(true, true), MigrateAction::StampAndClean);
}
