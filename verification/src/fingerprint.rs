//! Content hashing: a project's fingerprint is a digest of its name, the
//! fingerprints of its already-completed upstream dependencies, the command
//! text, and the raw bytes of its files, encoded as a printable string.
//!
//! Walking the project's directory tree is the caller's concern (unreadable
//! entries are skipped there, best effort); this module receives the file
//! bytes already gathered, in directory-entry order.

use vstd::prelude::*;
use vstd::string::StrSliceExecFns;
use vstd::string::StringSliceAdditionalSpecFns;
use vstd::utf8::encode_utf8;

use crate::workspace::{DepV, Project};

use base64ct::{Base64, Encoding};
use sha2::{Digest, Sha256};

verus! {

/// The SHA-256 digest of a byte sequence (named, not spelled out: the digest
/// is a fixed function of its input, computed by an outside crate).
pub uninterp spec fn sha256_of(bytes: Seq<u8>) -> Seq<u8>;

/// The padded standard Base64 rendering of a byte sequence.
pub uninterp spec fn base64_of(bytes: Seq<u8>) -> Seq<char>;

/// Relies on sha2's `Sha256`, through `Digest::digest`: one-shot hashing of
/// the full input; the output is always 32 bytes and depends on the input
/// bytes alone.
#[verifier::external_body]
fn sha256_digest(bytes: &Vec<u8>) -> (r: Vec<u8>)
    ensures
        r@ == sha256_of(bytes@),
        r@.len() == 32,
{
    Sha256::digest(bytes.as_slice()).to_vec()
}

/// Relies on base64ct's `Base64::encode_string`: padded standard Base64,
/// four output characters for every three input bytes; panics only when the
/// encoded length would overflow `usize`, which the bound below rules out.
#[verifier::external_body]
fn base64_encode(bytes: &Vec<u8>) -> (r: String)
    requires
        bytes@.len() <= usize::MAX / 4,
    ensures
        r@ == base64_of(bytes@),
        r@.len() == ((bytes@.len() + 2) / 3) * 4,
{
    Base64::encode_string(bytes.as_slice())
}

/// The upstream-fingerprint bytes folded into a project's digest: for each
/// dependency name in declaration order, the fingerprint recorded for it, or
/// nothing when it has no entry yet.
pub open spec fn dep_upstream_bytes(deps: Seq<DepV>, table: Map<Seq<char>, Seq<char>>) -> Seq<u8>
    decreases deps.len(),
{
    if deps.len() == 0 {
        Seq::empty()
    } else {
        dep_upstream_bytes(deps.drop_last(), table) + (if table.contains_key(deps.last().name) {
            encode_utf8(table[deps.last().name])
        } else {
            Seq::empty()
        })
    }
}

/// Everything a fingerprint digests, in order: project name, upstream
/// fingerprints of declared dependencies, command text, file bytes.
pub open spec fn fingerprint_input(
    name: Seq<char>,
    deps: Seq<DepV>,
    table: Map<Seq<char>, Seq<char>>,
    command: Seq<char>,
    files: Seq<u8>,
) -> Seq<u8> {
    encode_utf8(name) + dep_upstream_bytes(deps, table) + encode_utf8(command) + files
}

/// A project's fingerprint: the Base64 rendering of the SHA-256 digest of
/// `fingerprint_input`.
pub open spec fn fingerprint_of(
    name: Seq<char>,
    deps: Seq<DepV>,
    table: Map<Seq<char>, Seq<char>>,
    command: Seq<char>,
    files: Seq<u8>,
) -> Seq<char> {
    base64_of(sha256_of(fingerprint_input(name, deps, table, command, files)))
}

struct TableEntry {
    name: String,
    fp: String,
}

spec fn table_map(s: Seq<TableEntry>) -> Map<Seq<char>, Seq<char>>
    decreases s.len(),
{
    if s.len() == 0 {
        Map::empty()
    } else {
        table_map(s.drop_last()).insert(s.last().name@, s.last().fp@)
    }
}

spec fn table_lookup(s: Seq<TableEntry>, k: Seq<char>) -> Option<Seq<char>>
    decreases s.len(),
{
    if s.len() == 0 {
        Option::None
    } else if s.last().name@ == k {
        Option::Some(s.last().fp@)
    } else {
        table_lookup(s.drop_last(), k)
    }
}

proof fn lemma_table_lookup(s: Seq<TableEntry>, k: Seq<char>)
    ensures
        table_map(s).contains_key(k) == (table_lookup(s, k) is Some),
        table_lookup(s, k) matches Some(v) ==> table_map(s)[k] == v,
    decreases s.len(),
{
    if s.len() > 0 {
        lemma_table_lookup(s.drop_last(), k);
    }
}

/// The shared table of fingerprints produced by completed projects in the
/// current run: written once per project, read by every later round.
pub struct UpstreamTable {
    entries: Vec<TableEntry>,
}

impl UpstreamTable {
    /// The recorded fingerprints, as a map from project name to fingerprint.
    pub closed spec fn table(&self) -> Map<Seq<char>, Seq<char>> {
        table_map(self.entries@)
    }

    pub fn new() -> (r: UpstreamTable)
        ensures
            r.table() == Map::<Seq<char>, Seq<char>>::empty(),
    {
        UpstreamTable { entries: Vec::new() }
    }

    /// Records the fingerprint a completed project produced.
    pub fn insert(&mut self, name: &String, fp: &String)
        ensures
            final(self).table() == old(self).table().insert(name@, fp@),
    {
        let ghost before = self.entries@;
        self.entries.push(TableEntry { name: name.clone(), fp: fp.clone() });
        proof {
            assert(self.entries@.drop_last() =~= before);
            assert(final(self).table() =~= old(self).table().insert(name@, fp@));
        }
    }

    /// Looks up the fingerprint recorded for a project name.
    pub fn get(&self, name: &String) -> (r: Option<String>)
        ensures
            (r is Some) == self.table().contains_key(name@),
            r matches Some(v) ==> v@ == self.table()[name@],
    {
        let mut i: usize = self.entries.len();
        proof {
            lemma_table_lookup(self.entries@, name@);
            assert(self.entries@.subrange(0, self.entries@.len() as int) =~= self.entries@);
        }
        while i > 0
            invariant
                i <= self.entries@.len(),
                table_lookup(self.entries@, name@) == table_lookup(
                    self.entries@.subrange(0, i as int),
                    name@,
                ),
            decreases i,
        {
            i -= 1;
            let e = &self.entries[i];
            let ghost pre = self.entries@.subrange(0, i + 1);
            proof {
                assert(pre.last() == self.entries@[i as int]);
                assert(pre.drop_last() =~= self.entries@.subrange(0, i as int));
            }
            if e.name == *name {
                proof {
                    assert(table_lookup(self.entries@, name@) == Option::Some(e.fp@));
                    lemma_table_lookup(self.entries@, name@);
                }
                return Some(e.fp.clone());
            }
        }
        proof {
            assert(self.entries@.subrange(0, 0) =~= Seq::<TableEntry>::empty());
            lemma_table_lookup(self.entries@, name@);
        }
        None
    }

    /// A consistent copy of the table, taken at round dispatch so that every
    /// project hashed in the same round observes the same upstream state.
    pub fn snapshot(&self) -> (r: UpstreamTable)
        ensures
            r.table() == self.table(),
    {
        let mut entries: Vec<TableEntry> = Vec::new();
        let mut i: usize = 0;
        while i < self.entries.len()
            invariant
                i <= self.entries@.len(),
                entries@.len() == i,
                forall|j: int|
                    0 <= j < i ==> (#[trigger] entries@[j]).name@ == self.entries@[j].name@
                        && entries@[j].fp@ == self.entries@[j].fp@,
            decreases self.entries@.len() - i,
        {
            let e = &self.entries[i];
            entries.push(TableEntry { name: e.name.clone(), fp: e.fp.clone() });
            i += 1;
        }
        let r = UpstreamTable { entries };
        proof {
            lemma_table_map_congruent(r.entries@, self.entries@);
        }
        r
    }
}

proof fn lemma_table_map_congruent(a: Seq<TableEntry>, b: Seq<TableEntry>)
    requires
        a.len() == b.len(),
        forall|j: int|
            0 <= j < a.len() ==> (#[trigger] a[j]).name@ == b[j].name@ && a[j].fp@ == b[j].fp@,
    ensures
        table_map(a) == table_map(b),
    decreases a.len(),
{
    if a.len() > 0 {
        lemma_table_map_congruent(a.drop_last(), b.drop_last());
        assert(table_map(a) =~= table_map(b));
    }
}

fn extend_bytes(dst: &mut Vec<u8>, src: &Vec<u8>)
    ensures
        final(dst)@ == old(dst)@ + src@,
{
    let mut i: usize = 0;
    while i < src.len()
        invariant
            i <= src@.len(),
            dst@ == old(dst)@ + src@.subrange(0, i as int),
        decreases src@.len() - i,
    {
        dst.push(src[i]);
        proof {
            assert(old(dst)@ + src@.subrange(0, i + 1) =~= (old(dst)@ + src@.subrange(
                0,
                i as int,
            )).push(src@[i as int]));
        }
        i += 1;
    }
    proof {
        assert(src@.subrange(0, src@.len() as int) =~= src@);
    }
}

/// Computes the project's fingerprint for `command`: the digest of the
/// project name, the recorded fingerprint of each declared dependency that
/// `upstream` already holds (in declaration order), the command text, and
/// the project's file bytes, rendered in Base64.
pub fn hash(project: &Project, command: &str, upstream: &UpstreamTable, files: &Vec<u8>) -> (r:
    String)
    ensures
        r@ == fingerprint_of(project.name@, project@.deps, upstream.table(), command@, files@),
{
    let mut input: Vec<u8> = Vec::new();
    let name_bytes = project.name.as_str().as_bytes_vec();
    extend_bytes(&mut input, &name_bytes);
    let ghost head = encode_utf8(project.name@);
    assert(input@ == head + dep_upstream_bytes(
        project@.deps.subrange(0, 0),
        upstream.table(),
    )) by {
        assert(dep_upstream_bytes(project@.deps.subrange(0, 0), upstream.table())
            =~= Seq::<u8>::empty());
        assert(input@ =~= head + Seq::<u8>::empty());
    }
    let mut i: usize = 0;
    while i < project.dependencies.len()
        invariant
            i <= project.dependencies@.len(),
            head == encode_utf8(project.name@),
            input@ == head + dep_upstream_bytes(project@.deps.subrange(0, i as int), upstream.table()),
        decreases project.dependencies@.len() - i,
    {
        let ghost pre = project@.deps.subrange(0, i + 1);
        proof {
            assert(pre.drop_last() =~= project@.deps.subrange(0, i as int));
            assert(pre.last() == project@.deps[i as int]);
            assert(project@.deps[i as int] == project.dependencies@[i as int]@);
        }
        match upstream.get(&project.dependencies[i].name) {
            Some(fp) => {
                let fp_bytes = fp.as_str().as_bytes_vec();
                extend_bytes(&mut input, &fp_bytes);
                proof {
                    assert(input@ =~= head + dep_upstream_bytes(pre, upstream.table()));
                }
            },
            None => {
                proof {
                    assert(input@ =~= head + dep_upstream_bytes(pre, upstream.table()));
                }
            },
        }
        i += 1;
    }
    proof {
        assert(project@.deps.subrange(0, project@.deps.len() as int) =~= project@.deps);
        assert(project@.deps.len() == project.dependencies@.len());
    }
    let command_bytes = command.as_bytes_vec();
    extend_bytes(&mut input, &command_bytes);
    extend_bytes(&mut input, files);
    proof {
        assert(input@ =~= fingerprint_input(
            project.name@,
            project@.deps,
            upstream.table(),
            command@,
            files@,
        ));
    }
    let digest = sha256_digest(&input);
    base64_encode(&digest)
}

/// Determinism: a fingerprint is a pure function of the project name, the
/// declared dependencies, the upstream table, the command text, and the file
/// bytes — two computations over unchanged inputs agree.
pub proof fn lemma_fingerprint_deterministic(
    r1: Seq<char>,
    r2: Seq<char>,
    name: Seq<char>,
    deps: Seq<DepV>,
    table: Map<Seq<char>, Seq<char>>,
    command: Seq<char>,
    files: Seq<u8>,
)
    requires
        r1 == fingerprint_of(name, deps, table, command, files),
        r2 == fingerprint_of(name, deps, table, command, files),
    ensures
        r1 == r2,
{
}

proof fn lemma_dep_bytes_agree(
    deps: Seq<DepV>,
    t1: Map<Seq<char>, Seq<char>>,
    t2: Map<Seq<char>, Seq<char>>,
)
    requires
        forall|j: int|
            0 <= j < deps.len() ==> (t1.contains_key((#[trigger] deps[j]).name) == t2.contains_key(
                deps[j].name,
            )) && (t1.contains_key(deps[j].name) ==> t1[deps[j].name] == t2[deps[j].name]),
    ensures
        dep_upstream_bytes(deps, t1) == dep_upstream_bytes(deps, t2),
    decreases deps.len(),
{
    if deps.len() > 0 {
        assert(forall|j: int|
            0 <= j < deps.drop_last().len() ==> #[trigger] deps.drop_last()[j] == deps[j]);
        lemma_dep_bytes_agree(deps.drop_last(), t1, t2);
    }
}

/// Insensitivity to unrelated state: the fingerprint reads only the upstream
/// entries of the project's own declared dependencies, so two upstream
/// tables that agree on those names — whatever they record for other
/// projects — yield the same fingerprint.
pub proof fn lemma_fingerprint_reads_only_declared_deps(
    name: Seq<char>,
    deps: Seq<DepV>,
    t1: Map<Seq<char>, Seq<char>>,
    t2: Map<Seq<char>, Seq<char>>,
    command: Seq<char>,
    files: Seq<u8>,
)
    requires
        forall|j: int|
            0 <= j < deps.len() ==> (t1.contains_key((#[trigger] deps[j]).name) == t2.contains_key(
                deps[j].name,
            )) && (t1.contains_key(deps[j].name) ==> t1[deps[j].name] == t2[deps[j].name]),
    ensures
        fingerprint_of(name, deps, t1, command, files) == fingerprint_of(
            name,
            deps,
            t2,
            command,
            files,
        ),
{
    lemma_dep_bytes_agree(deps, t1, t2);
}

} // verus!
