use kvs::codec::encode;
use kvs::command::Command;
use kvs::error::KvStoreError;
use kvs::kv::{Compaction, KvStore, Pos};
use kvs::segment::segment_generations;
use std::collections::BTreeMap;

/// Segments held in memory, by generation.
struct Disk {
    segs: BTreeMap<u64, Vec<u8>>,
}

fn to_command(v: serde_json::Value) -> Command {
    let obj = v.as_object().expect("record is an object");
    if let Some(arr) = obj.get("Set") {
        let arr = arr.as_array().expect("Set holds an array");
        Command::Put(
            arr[0].as_str().unwrap().to_string(),
            arr[1].as_str().unwrap().to_string(),
        )
    } else {
        Command::Rm(obj.get("Rm").unwrap().as_str().unwrap().to_string())
    }
}

fn decode_segment(gen: u64, bytes: &[u8]) -> Vec<(Pos, Command)> {
    let mut out = Vec::new();
    let mut it = serde_json::Deserializer::from_slice(bytes).into_iter::<serde_json::Value>();
    let mut before = it.byte_offset() as u64;
    while let Some(v) = it.next() {
        let after = it.byte_offset() as u64;
        out.push((
            Pos { file_id: gen, offset: before, length: after - before },
            to_command(v.unwrap()),
        ));
        before = after;
    }
    out
}

fn decode_one(bytes: &[u8]) -> Command {
    to_command(serde_json::from_slice::<serde_json::Value>(bytes).unwrap())
}

fn carry_out(disk: &mut Disk, c: Compaction) {
    let mut merged = Vec::new();
    for p in &c.sources {
        let seg = &disk.segs[&p.file_id];
        merged.extend_from_slice(&seg[p.offset as usize..(p.offset + p.length) as usize]);
    }
    assert_eq!(merged.len() as u64, c.merge_len);
    disk.segs.insert(c.merge_file, merged);
    disk.segs.retain(|g, _| *g >= c.merge_file);
    disk.segs.insert(c.next_file, Vec::new());
}

fn compact(store: &mut KvStore, disk: &mut Disk) {
    let c = store.compact().expect("compaction fits");
    carry_out(disk, c);
}

fn open(disk: &mut Disk) -> KvStore {
    let names: Vec<String> = disk.segs.keys().map(|g| format!("data_{}.data", g)).collect();
    let gens = segment_generations(&names);
    let mut log = Vec::new();
    for g in &gens {
        log.extend(decode_segment(*g, &disk.segs[g]));
    }
    let active = *gens.last().unwrap_or(&0);
    let end = disk.segs.get(&active).map(|s| s.len()).unwrap_or(0) as u64;
    disk.segs.entry(active).or_insert_with(Vec::new);
    let (store, plan) = KvStore::open(log, active, end);
    if let Some(c) = plan {
        carry_out(disk, c);
    }
    store
}

fn set(store: &mut KvStore, disk: &mut Disk, k: &str, v: &str) {
    let bytes = store.prepare_set(&k.to_string(), &v.to_string()).unwrap();
    disk.segs.get_mut(&store.active_file()).unwrap().extend_from_slice(&bytes);
    if let Some(c) = store.commit_set(k.to_string(), v.to_string(), &bytes) {
        carry_out(disk, c);
    }
}

fn remove(store: &mut KvStore, disk: &mut Disk, k: &str) -> Result<(), KvStoreError> {
    let bytes = store.prepare_remove(&k.to_string())?;
    disk.segs.get_mut(&store.active_file()).unwrap().extend_from_slice(&bytes);
    if let Some(c) = store.commit_remove(k.to_string(), &bytes) {
        carry_out(disk, c);
    }
    Ok(())
}

fn get(store: &KvStore, disk: &Disk, k: &str) -> Result<Option<String>, KvStoreError> {
    match store.locate(&k.to_string()) {
        None => Ok(None),
        Some(p) => {
            let seg = &disk.segs[&p.file_id];
            let cmd = decode_one(&seg[p.offset as usize..(p.offset + p.length) as usize]);
            KvStore::value_of(cmd).map(Some)
        }
    }
}

fn empty_disk() -> Disk {
    Disk { segs: BTreeMap::new() }
}

#[test]
fn basic_set_get() {
    let mut disk = empty_disk();
    let mut s = open(&mut disk);
    set(&mut s, &mut disk, "key1", "value1");
    assert_eq!(get(&s, &disk, "key1").unwrap(), Some("value1".to_string()));
    assert_eq!(get(&s, &disk, "missing").unwrap(), None);
}

#[test]
fn overwrite_survives_reopen() {
    let mut disk = empty_disk();
    let mut s = open(&mut disk);
    set(&mut s, &mut disk, "k", "a");
    set(&mut s, &mut disk, "k", "b");
    assert_eq!(get(&s, &disk, "k").unwrap(), Some("b".to_string()));
    let s = open(&mut disk);
    assert_eq!(get(&s, &disk, "k").unwrap(), Some("b".to_string()));
}

#[test]
fn remove_then_missing() {
    let mut disk = empty_disk();
    let mut s = open(&mut disk);
    set(&mut s, &mut disk, "k", "v");
    assert!(remove(&mut s, &mut disk, "k").is_ok());
    assert_eq!(get(&s, &disk, "k").unwrap(), None);
    assert!(matches!(remove(&mut s, &mut disk, "k"), Err(KvStoreError::KeyNotFound)));
}

#[test]
fn remove_never_set_key() {
    let mut disk = empty_disk();
    let mut s = open(&mut disk);
    let before = disk.segs.clone();
    assert!(matches!(remove(&mut s, &mut disk, "nope"), Err(KvStoreError::KeyNotFound)));
    assert_eq!(disk.segs, before);
    assert_eq!(s.stale_bytes(), 0);
}

#[test]
fn persistence() {
    let mut disk = empty_disk();
    let mut s = open(&mut disk);
    set(&mut s, &mut disk, "k1", "v1");
    set(&mut s, &mut disk, "k2", "v2");
    let s = open(&mut disk);
    assert_eq!(get(&s, &disk, "k1").unwrap(), Some("v1".to_string()));
    assert_eq!(get(&s, &disk, "k2").unwrap(), Some("v2".to_string()));
}

#[test]
fn removal_survives_reopen() {
    let mut disk = empty_disk();
    let mut s = open(&mut disk);
    set(&mut s, &mut disk, "a", "1");
    set(&mut s, &mut disk, "b", "2");
    remove(&mut s, &mut disk, "a").unwrap();
    set(&mut s, &mut disk, "b", "3");
    let s = open(&mut disk);
    assert_eq!(get(&s, &disk, "a").unwrap(), None);
    assert_eq!(get(&s, &disk, "b").unwrap(), Some("3".to_string()));
}

#[test]
fn repeated_sets_then_reopen() {
    let mut disk = empty_disk();
    let mut s = open(&mut disk);
    for i in 0..20 {
        set(&mut s, &mut disk, "k", &format!("v{}", i));
    }
    let s = open(&mut disk);
    assert_eq!(get(&s, &disk, "k").unwrap(), Some("v19".to_string()));
}

#[test]
fn stale_accounting() {
    let mut disk = empty_disk();
    let mut s = open(&mut disk);
    set(&mut s, &mut disk, "k", "a");
    assert_eq!(s.stale_bytes(), 0);
    // {"Set":["k","a"]} is 17 bytes
    assert_eq!(s.end_pos(), 17);
    set(&mut s, &mut disk, "k", "b");
    assert_eq!(s.stale_bytes(), 17);
    // {"Rm":"k"} is 10 bytes
    remove(&mut s, &mut disk, "k").unwrap();
    assert_eq!(s.stale_bytes(), 17 + 17 + 10);
    let s = open(&mut disk);
    assert_eq!(s.stale_bytes(), 17 + 17 + 10);
}

#[test]
fn compaction_trigger() {
    let mut disk = empty_disk();
    let mut s = open(&mut disk);
    let mut first_total = 0;
    for i in 0..1000 {
        let k = format!("key{}", i);
        let v = format!("value{}", i);
        first_total += encode(&Command::Put(k.clone(), v.clone())).len();
        set(&mut s, &mut disk, &k, &v);
    }
    assert!(first_total > 4096);
    let mut live_total = 0;
    for i in 0..1000 {
        let k = format!("key{}", i);
        let v = format!("second{}", i);
        live_total += encode(&Command::Put(k.clone(), v.clone())).len();
        set(&mut s, &mut disk, &k, &v);
    }
    let s = open(&mut disk);
    for i in 0..1000 {
        assert_eq!(get(&s, &disk, &format!("key{}", i)).unwrap(), Some(format!("second{}", i)));
    }
    assert!(disk.segs.len() <= 2);
    let on_disk: usize = disk.segs.values().map(|v| v.len()).sum();
    assert!(on_disk >= live_total);
    assert!(on_disk <= live_total + 4096 + 64);
}

#[test]
fn compaction_keeps_live_records_only() {
    let mut disk = empty_disk();
    let mut s = open(&mut disk);
    set(&mut s, &mut disk, "a", "1");
    set(&mut s, &mut disk, "b", "2");
    set(&mut s, &mut disk, "a", "3");
    remove(&mut s, &mut disk, "b").unwrap();
    set(&mut s, &mut disk, "c", "4");
    let old_active = s.active_file();
    compact(&mut s, &mut disk);
    assert_eq!(s.stale_bytes(), 0);
    assert_eq!(s.active_file(), old_active + 2);
    assert_eq!(s.end_pos(), 0);
    let merged = &disk.segs[&(old_active + 1)];
    let live = encode(&Command::Put("a".to_string(), "3".to_string())).len()
        + encode(&Command::Put("c".to_string(), "4".to_string())).len();
    assert_eq!(merged.len(), live);
    assert_eq!(get(&s, &disk, "a").unwrap(), Some("3".to_string()));
    assert_eq!(get(&s, &disk, "b").unwrap(), None);
    assert_eq!(get(&s, &disk, "c").unwrap(), Some("4".to_string()));
    assert_eq!(disk.segs.len(), 2);
    set(&mut s, &mut disk, "d", "5");
    let s = open(&mut disk);
    assert_eq!(get(&s, &disk, "a").unwrap(), Some("3".to_string()));
    assert_eq!(get(&s, &disk, "d").unwrap(), Some("5".to_string()));
}

#[test]
fn corruption_surfaced() {
    // A segment that holds a single Rm record; the index is pointed at it.
    let rm = encode(&Command::Rm("k".to_string()));
    let mut disk = empty_disk();
    disk.segs.insert(0, rm.clone());
    let cmd = decode_one(&disk.segs[&0][0..rm.len()]);
    assert!(matches!(KvStore::value_of(cmd), Err(KvStoreError::UnKnowCommandType)));
    let (s, _) = KvStore::open(vec![(Pos { file_id: 0, offset: 0, length: rm.len() as u64 }, Command::Rm("k".to_string()))], 0, rm.len() as u64);
    assert_eq!(s.locate(&"k".to_string()), None);
}

#[test]
fn value_of_set_record() {
    let r = KvStore::value_of(Command::Put("k".to_string(), "v".to_string()));
    assert_eq!(r.unwrap(), "v".to_string());
}

#[test]
fn open_counts_stale_bytes() {
    let log = vec![
        (Pos { file_id: 0, offset: 0, length: 17 }, Command::Put("k".to_string(), "a".to_string())),
        (Pos { file_id: 0, offset: 17, length: 17 }, Command::Put("k".to_string(), "b".to_string())),
        (Pos { file_id: 1, offset: 0, length: 10 }, Command::Rm("k".to_string())),
        (Pos { file_id: 1, offset: 10, length: 17 }, Command::Put("j".to_string(), "c".to_string())),
    ];
    let (s, plan) = KvStore::open(log, 1, 27);
    assert!(plan.is_none());
    assert_eq!(s.stale_bytes(), 17 + 17 + 10);
    assert_eq!(s.locate(&"k".to_string()), None);
    assert_eq!(s.locate(&"j".to_string()), Some(Pos { file_id: 1, offset: 10, length: 17 }));
    assert_eq!(s.active_file(), 1);
    assert_eq!(s.end_pos(), 27);
    assert!(!s.needs_compaction());
}

#[test]
fn new_store_is_empty() {
    let s = KvStore::new();
    assert_eq!(s.active_file(), 0);
    assert_eq!(s.end_pos(), 0);
    assert_eq!(s.stale_bytes(), 0);
    assert_eq!(s.locate(&"x".to_string()), None);
}

#[test]
fn set_past_largest_offset_fails_with_io() {
    let (mut s, _) = KvStore::open(Vec::new(), 0, u64::MAX - 3);
    let r = s.set("k".to_string(), "v".to_string());
    assert!(matches!(r, Err(KvStoreError::Io(_))));
    assert_eq!(s.locate(&"k".to_string()), None);
    assert_eq!(s.end_pos(), u64::MAX - 3);
}

#[test]
fn compaction_refused_when_generations_run_out() {
    let (mut s, _) = KvStore::open(Vec::new(), u64::MAX - 1, 0);
    assert!(s.compact().is_none());
    assert_eq!(s.active_file(), u64::MAX - 1);
    let (mut t, _) = KvStore::open(Vec::new(), u64::MAX - 2, 0);
    let c = t.compact().unwrap();
    assert_eq!(c.merge_file, u64::MAX - 1);
    assert_eq!(c.next_file, u64::MAX);
    assert_eq!(c.merge_len, 0);
    assert!(c.sources.is_empty());
}

#[test]
fn compaction_plan_lays_records_end_to_end() {
    let mut s = KvStore::new();
    s.set("a".to_string(), "1".to_string()).unwrap();
    s.set("b".to_string(), "22".to_string()).unwrap();
    let c = s.compact().unwrap();
    assert_eq!(c.merge_file, 1);
    assert_eq!(c.next_file, 2);
    assert_eq!(c.sources.len(), 2);
    assert_eq!(c.merge_len, c.sources[0].length + c.sources[1].length);
    let a = s.locate(&"a".to_string()).unwrap();
    let b = s.locate(&"b".to_string()).unwrap();
    assert_eq!(a.file_id, 1);
    assert_eq!(b.file_id, 1);
    assert_eq!(a.offset + b.offset, c.sources[0].length);
    assert_eq!(a.length + b.length, c.merge_len);
}

#[test]
fn first_set_and_remove_records() {
    let mut s = KvStore::new();
    let (b, c) = s.set("k".to_string(), "v".to_string()).unwrap();
    assert_eq!(b, br#"{"Set":["k","v"]}"#.to_vec());
    assert!(c.is_none());
    assert_eq!(s.locate(&"k".to_string()), Some(Pos { file_id: 0, offset: 0, length: 17 }));
    let (b, c) = s.remove("k".to_string()).unwrap();
    assert_eq!(b, br#"{"Rm":"k"}"#.to_vec());
    assert!(c.is_none());
    assert_eq!(s.stale_bytes(), 27);
    assert_eq!(s.end_pos(), 27);
    assert_eq!(s.locate(&"k".to_string()), None);
}

#[test]
fn set_triggers_compaction_past_threshold() {
    let mut s = KvStore::new();
    let mut plan = None;
    let mut n = 0;
    while plan.is_none() {
        let (_, c) = s.set("k".to_string(), format!("value{}", n)).unwrap();
        plan = c;
        n += 1;
    }
    let c = plan.unwrap();
    assert!(n > 4096 / 30);
    assert_eq!(c.merge_file, 1);
    assert_eq!(c.next_file, 2);
    assert_eq!(c.sources.len(), 1);
    assert_eq!(s.stale_bytes(), 0);
    assert_eq!(s.active_file(), 2);
    assert_eq!(s.end_pos(), 0);
    let p = s.locate(&"k".to_string()).unwrap();
    assert_eq!(p.file_id, 1);
    assert_eq!(p.offset, 0);
    assert_eq!(p.length, c.merge_len);
}

#[test]
fn open_compacts_past_threshold() {
    let mut disk = empty_disk();
    let mut log_bytes = Vec::new();
    for i in 0..300 {
        log_bytes.extend(encode(&Command::Put("k".to_string(), format!("v{}", i))));
    }
    disk.segs.insert(3, log_bytes);
    let s = open(&mut disk);
    assert_eq!(s.stale_bytes(), 0);
    assert_eq!(s.active_file(), 5);
    assert_eq!(disk.segs.len(), 2);
    assert_eq!(disk.segs[&4], encode(&Command::Put("k".to_string(), "v299".to_string())));
    assert_eq!(get(&s, &disk, "k").unwrap(), Some("v299".to_string()));
}

#[test]
fn prepare_changes_nothing() {
    let mut s = KvStore::new();
    s.set("a".to_string(), "1".to_string()).unwrap();
    let b = s.prepare_set(&"a".to_string(), &"2".to_string()).unwrap();
    assert_eq!(b, br#"{"Set":["a","2"]}"#.to_vec());
    assert_eq!(s.end_pos(), 17);
    assert!(matches!(s.prepare_remove(&"zz".to_string()), Err(KvStoreError::KeyNotFound)));
    assert_eq!(s.prepare_remove(&"a".to_string()).unwrap(), br#"{"Rm":"a"}"#.to_vec());
    assert_eq!(s.end_pos(), 17);
    assert_eq!(s.stale_bytes(), 0);
}

#[test]
fn errors_convert_from_io_and_json() {
    let e: KvStoreError = std::io::Error::new(std::io::ErrorKind::Other, "x").into();
    assert!(matches!(e, KvStoreError::Io(_)));
    let j = serde_json::from_slice::<serde_json::Value>(b"{").unwrap_err();
    let e: KvStoreError = j.into();
    assert!(matches!(e, KvStoreError::Serde(_)));
}
