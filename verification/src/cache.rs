//! Result cache gating command execution. Records are keyed by the triple
//! (project name, normalized command, fingerprint) — never by the project's
//! path, so a relocated project with unchanged content still hits.
//!
//! This module holds the store's contents and the keying discipline; moving
//! the records to disk (the local variant) or over the network (the remote
//! variant) is the surrounding binary's concern, and any failure there
//! degrades to a miss rather than aborting a run.

use vstd::prelude::*;
use vstd::string::StrSliceExecFns;
use vstd::string::StringSliceAdditionalSpecFns;
use vstd::utf8::encode_utf8;

use crate::workspace::Project;

verus! {

/// Which backing store a cache was configured with.
#[derive(Debug)]
pub enum CacheType {
    Remote,
    Local,
}

/// The normalized command key: every space byte replaced by a dash, so a
/// command can only collide with one that normalizes identically.
pub open spec fn normalize_key(command: Seq<u8>) -> Seq<u8> {
    command.map_values(|b: u8| if b == 32 { 45u8 } else { b })
}

/// The key triple a record is stored under: project name, normalized
/// command bytes, fingerprint.
pub open spec fn cache_key(project: Seq<char>, command: Seq<char>, hash: Seq<char>) -> (
    Seq<char>,
    Seq<u8>,
    Seq<char>,
) {
    (project, normalize_key(encode_utf8(command)), hash)
}

struct CacheEntry {
    project: String,
    command_key: Vec<u8>,
    hash: String,
    result: String,
}

spec fn entry_key(e: CacheEntry) -> (Seq<char>, Seq<u8>, Seq<char>) {
    (e.project@, e.command_key@, e.hash@)
}

spec fn entries_map(s: Seq<CacheEntry>) -> Map<(Seq<char>, Seq<u8>, Seq<char>), Seq<char>>
    decreases s.len(),
{
    if s.len() == 0 {
        Map::empty()
    } else {
        entries_map(s.drop_last()).insert(entry_key(s.last()), s.last().result@)
    }
}

spec fn entries_lookup(s: Seq<CacheEntry>, k: (Seq<char>, Seq<u8>, Seq<char>)) -> Option<Seq<char>>
    decreases s.len(),
{
    if s.len() == 0 {
        Option::None
    } else if entry_key(s.last()) == k {
        Option::Some(s.last().result@)
    } else {
        entries_lookup(s.drop_last(), k)
    }
}

proof fn lemma_entries_lookup(s: Seq<CacheEntry>, k: (Seq<char>, Seq<u8>, Seq<char>))
    ensures
        entries_map(s).contains_key(k) == (entries_lookup(s, k) is Some),
        entries_lookup(s, k) matches Some(v) ==> entries_map(s)[k] == v,
    decreases s.len(),
{
    if s.len() > 0 {
        lemma_entries_lookup(s.drop_last(), k);
    }
}

/// The result cache: the selected variant plus the records it holds.
pub struct Cache {
    cache_type: CacheType,
    entries: Vec<CacheEntry>,
}

fn normalized_command(command: &str) -> (r: Vec<u8>)
    ensures
        r@ == normalize_key(command.spec_bytes()),
{
    let bytes = command.as_bytes();
    let mut out: Vec<u8> = Vec::new();
    let mut i: usize = 0;
    while i < bytes.len()
        invariant
            i <= bytes@.len(),
            out@.len() == i,
            forall|j: int|
                0 <= j < i ==> #[trigger] out@[j] == (if bytes@[j] == 32 {
                    45u8
                } else {
                    bytes@[j]
                }),
        decreases bytes@.len() - i,
    {
        let b = bytes[i];
        if b == 32 {
            out.push(45);
        } else {
            out.push(b);
        }
        i += 1;
    }
    proof {
        assert(out@ =~= normalize_key(bytes@));
    }
    out
}

fn bytes_eq(a: &Vec<u8>, b: &Vec<u8>) -> (r: bool)
    ensures
        r == (a@ == b@),
{
    if a.len() != b.len() {
        return false;
    }
    let mut i: usize = 0;
    while i < a.len()
        invariant
            a@.len() == b@.len(),
            i <= a@.len(),
            forall|j: int| 0 <= j < i ==> a@[j] == b@[j],
        decreases a@.len() - i,
    {
        if a[i] != b[i] {
            return false;
        }
        i += 1;
    }
    proof {
        assert(a@ =~= b@);
    }
    true
}

impl Cache {
    /// Which variant this cache was configured with.
    pub closed spec fn kind(&self) -> CacheType {
        self.cache_type
    }

    /// The records the cache holds, as a map from key triple to result.
    pub closed spec fn store(&self) -> Map<(Seq<char>, Seq<u8>, Seq<char>), Seq<char>> {
        entries_map(self.entries@)
    }

    /// Selects the variant from the configuration string: `"remote"` picks
    /// the remote store, anything else the local one. Starts empty.
    pub fn new(c_type: &String) -> (r: Cache)
        ensures
            (r.kind() is Remote) == (c_type@ == "remote"@),
            r.store() == Map::<(Seq<char>, Seq<u8>, Seq<char>), Seq<char>>::empty(),
    {
        let remote = String::from_str("remote");
        let cache_type = if *c_type == remote {
            CacheType::Remote
        } else {
            CacheType::Local
        };
        Cache { cache_type, entries: Vec::new() }
    }

    /// Looks up the record stored under (project name, normalized command,
    /// fingerprint). The result does not depend on `root`, the on-disk
    /// location of the local store: the key is the triple alone.
    pub fn get(&self, project: &Project, command: &str, hash: &str, root: String) -> (r: Option<
        String,
    >)
        ensures
            (r is Some) == self.store().contains_key(cache_key(project.name@, command@, hash@)),
            r matches Some(v) ==> v@ == self.store()[cache_key(project.name@, command@, hash@)],
    {
        let ck = normalized_command(command);
        let hash_s = String::from_str(hash);
        let ghost key = cache_key(project.name@, command@, hash@);
        proof {
            lemma_entries_lookup(self.entries@, key);
            assert(self.entries@.subrange(0, self.entries@.len() as int) =~= self.entries@);
        }
        let mut i: usize = self.entries.len();
        while i > 0
            invariant
                i <= self.entries@.len(),
                ck@ == normalize_key(encode_utf8(command@)),
                hash_s@ == hash@,
                key == cache_key(project.name@, command@, hash@),
                entries_lookup(self.entries@, key) == entries_lookup(
                    self.entries@.subrange(0, i as int),
                    key,
                ),
            decreases i,
        {
            i -= 1;
            let e = &self.entries[i];
            let ghost pre = self.entries@.subrange(0, i + 1);
            proof {
                assert(pre.last() == self.entries@[i as int]);
                assert(pre.drop_last() =~= self.entries@.subrange(0, i as int));
            }
            if e.project == project.name && bytes_eq(&e.command_key, &ck) && e.hash == hash_s {
                proof {
                    assert(entry_key(pre.last()) == key);
                    assert(entries_lookup(self.entries@, key) == Option::Some(e.result@));
                    lemma_entries_lookup(self.entries@, key);
                }
                return Some(e.result.clone());
            }
            proof {
                assert(entry_key(pre.last()) != key);
            }
        }
        proof {
            assert(self.entries@.subrange(0, 0) =~= Seq::<CacheEntry>::empty());
            lemma_entries_lookup(self.entries@, key);
        }
        None
    }

    /// Stores `result` under (project name, normalized command, fingerprint),
    /// replacing any record already there.
    pub fn put(&mut self, project: &Project, command: &str, hash: &str, result: &str)
        ensures
            final(self).kind() == old(self).kind(),
            final(self).store() == old(self).store().insert(
                cache_key(project.name@, command@, hash@),
                result@,
            ),
    {
        let ck = normalized_command(command);
        let entry = CacheEntry {
            project: project.name.clone(),
            command_key: ck,
            hash: String::from_str(hash),
            result: String::from_str(result),
        };
        let ghost before = self.entries@;
        self.entries.push(entry);
        proof {
            assert(self.entries@.drop_last() =~= before);
            assert(final(self).store() =~= old(self).store().insert(
                cache_key(project.name@, command@, hash@),
                result@,
            ));
        }
    }
}

/// Round-trip law: after a record is stored under a key triple, a lookup of
/// that same triple finds exactly that record, and every other key is
/// unaffected; a key never stored is a miss (the store starts empty and only
/// `put` adds keys).
pub proof fn lemma_cache_round_trip(
    before: Map<(Seq<char>, Seq<u8>, Seq<char>), Seq<char>>,
    key: (Seq<char>, Seq<u8>, Seq<char>),
    result: Seq<char>,
    other: (Seq<char>, Seq<u8>, Seq<char>),
)
    requires
        other != key,
    ensures
        before.insert(key, result).contains_key(key),
        before.insert(key, result)[key] == result,
        before.insert(key, result).contains_key(other) == before.contains_key(other),
        !Map::<(Seq<char>, Seq<u8>, Seq<char>), Seq<char>>::empty().contains_key(other),
{
}

} // verus!
