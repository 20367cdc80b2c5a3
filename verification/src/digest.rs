//! The digest engine: a deterministic content fingerprint of a directory
//! tree.
//!
//! The tree arrives as a list of entries, each with its kind, its relative
//! path split into components, and its bytes. Files whose normalized
//! relative path matches an ignore pattern are excluded; the remaining
//! files are sorted by path; a single byte stream is then formed, per file:
//! the UTF-8 bytes of the path, one NUL, the content, one NUL; finally the
//! stream is hashed with the configured algorithm and rendered as lowercase
//! hex. Including the path bytes keeps structurally different trees apart,
//! sorting makes the digest independent of enumeration order, and the NUL
//! framing keeps file boundaries unambiguous. Symlinks and special files
//! are hard errors: the trees are later replaced wholesale, so nothing may
//! be traversed through an indirection.

use vstd::prelude::*;
use vstd::relations::{sorted_by, total_ordering};
use vstd::seq_lib::group_to_multiset_ensures;
use vstd::seq_lib::lemma_sorted_unique;
use vstd::string::{StrSliceExecFns, StringExecFns};
use vstd::utf8::encode_utf8;

use sha2::Digest;

use crate::config::HashAlgo;
use crate::error::{AppError, AppResult};
use crate::globs::{globset_is_match, globset_matches, globset_patterns};
use crate::text::{
    bytes_lt, lemma_lt_bytes_asymmetric, lemma_lt_bytes_transitive, lemma_lt_bytes_trichotomy,
    lemma_lt_chars_asymmetric, lemma_lt_chars_transitive, lemma_lt_chars_trichotomy, lex_lt_bytes,
    lex_lt_chars, str_eq, str_lt,
};

verus! {

/// The 32-byte BLAKE3 digest of a byte sequence, as `blake3::hash` computes
/// it.
pub uninterp spec fn blake3_of(data: Seq<u8>) -> Seq<u8>;

/// The 32-byte SHA-256 digest of a byte sequence, as `sha2::Sha256`
/// computes it.
pub uninterp spec fn sha256_of(data: Seq<u8>) -> Seq<u8>;

/// Relies on blake3::hash: a 32-byte digest, a function of the input bytes
/// alone.
#[verifier::external_body]
fn blake3_digest(data: &Vec<u8>) -> (r: Vec<u8>)
    ensures
        r@ == blake3_of(data@),
        r@.len() == 32,
{
    blake3::hash(data.as_slice()).as_bytes().to_vec()
}

/// Relies on sha2::Sha256 through the Digest trait: a 32-byte digest, a
/// function of the input bytes alone.
#[verifier::external_body]
fn sha256_digest(data: &Vec<u8>) -> (r: Vec<u8>)
    ensures
        r@ == sha256_of(data@),
        r@.len() == 32,
{
    sha2::Sha256::digest(data.as_slice()).to_vec()
}

/// The lowercase hex digit for a value below sixteen.
pub open spec fn hex_digit(n: int) -> char {
    if n == 0 {
        '0'
    } else if n == 1 {
        '1'
    } else if n == 2 {
        '2'
    } else if n == 3 {
        '3'
    } else if n == 4 {
        '4'
    } else if n == 5 {
        '5'
    } else if n == 6 {
        '6'
    } else if n == 7 {
        '7'
    } else if n == 8 {
        '8'
    } else if n == 9 {
        '9'
    } else if n == 10 {
        'a'
    } else if n == 11 {
        'b'
    } else if n == 12 {
        'c'
    } else if n == 13 {
        'd'
    } else if n == 14 {
        'e'
    } else {
        'f'
    }
}

/// The lowercase hex rendering of a byte sequence, two digits per byte.
pub open spec fn hex_of(bytes: Seq<u8>) -> Seq<char>
    decreases bytes.len(),
{
    if bytes.len() == 0 {
        Seq::empty()
    } else {
        hex_of(bytes.drop_last()) + seq![
            hex_digit(bytes.last() as int / 16),
            hex_digit(bytes.last() as int % 16),
        ]
    }
}

/// Hex rendering yields two characters per byte.
pub proof fn lemma_hex_of_len(bytes: Seq<u8>)
    ensures
        hex_of(bytes).len() == 2 * bytes.len(),
    decreases bytes.len(),
{
    if bytes.len() > 0 {
        lemma_hex_of_len(bytes.drop_last());
    }
}

fn hex_digit_str(n: u8) -> (r: &'static str)
    requires
        n < 16,
    ensures
        r@ == seq![hex_digit(n as int)],
{
    proof {
        reveal_strlit("0");
        reveal_strlit("1");
        reveal_strlit("2");
        reveal_strlit("3");
        reveal_strlit("4");
        reveal_strlit("5");
        reveal_strlit("6");
        reveal_strlit("7");
        reveal_strlit("8");
        reveal_strlit("9");
        reveal_strlit("a");
        reveal_strlit("b");
        reveal_strlit("c");
        reveal_strlit("d");
        reveal_strlit("e");
        reveal_strlit("f");
    }
    let r = match n {
        0 => "0",
        1 => "1",
        2 => "2",
        3 => "3",
        4 => "4",
        5 => "5",
        6 => "6",
        7 => "7",
        8 => "8",
        9 => "9",
        10 => "a",
        11 => "b",
        12 => "c",
        13 => "d",
        14 => "e",
        _ => "f",
    };
    proof {
        assert(r@ =~= seq![hex_digit(n as int)]);
    }
    r
}

/// Renders bytes as lowercase hex.
pub fn to_hex(bytes: &Vec<u8>) -> (r: String)
    ensures
        r@ == hex_of(bytes@),
{
    let mut out = String::new();
    let n = bytes.len();
    let mut i: usize = 0;
    proof {
        assert(bytes@.take(0) =~= Seq::<u8>::empty());
    }
    while i < n
        invariant
            0 <= i <= n,
            n == bytes@.len(),
            out@ == hex_of(bytes@.take(i as int)),
        decreases n - i,
    {
        let b = bytes[i];
        let hi = b / 16;
        let lo = b % 16;
        out.append(hex_digit_str(hi));
        out.append(hex_digit_str(lo));
        proof {
            assert(bytes@.take(i + 1).drop_last() =~= bytes@.take(i as int));
            assert(bytes@.take(i + 1).last() == bytes@[i as int]);
            assert(hex_of(bytes@.take(i + 1)) =~= hex_of(bytes@.take(i as int)) + seq![
                hex_digit(hi as int),
                hex_digit(lo as int),
            ]);
        }
        i = i + 1;
    }
    proof {
        assert(bytes@.take(n as int) =~= bytes@);
    }
    out
}

/// A digest shortened for table display: unchanged up to six characters,
/// else the first three, an ellipsis, and the last three.
pub open spec fn short_digest_spec(s: Seq<char>) -> Seq<char> {
    if s.len() <= 6 {
        s
    } else {
        s.take(3) + seq!['.', '.', '.'] + s.skip(s.len() - 3)
    }
}

/// Shortens a digest for display.
pub fn short_digest(digest: &str) -> (r: String)
    ensures
        r@ == short_digest_spec(digest@),
{
    let n = digest.unicode_len();
    if n <= 6 {
        String::from_str(digest)
    } else {
        let mut out = String::from_str(digest.substring_char(0, 3));
        out.append("...");
        out.append(digest.substring_char(n - 3, n));
        proof {
            reveal_strlit("...");
            assert("..."@ =~= seq!['.', '.', '.']);
            assert(digest@.subrange(0, 3) =~= digest@.take(3));
            assert(digest@.subrange(n - 3, n as int) =~= digest@.skip(n - 3));
            assert(out@ =~= short_digest_spec(digest@));
        }
        out
    }
}

/// The relative path formed by joining components with `/`.
pub open spec fn joined_path(parts: Seq<Seq<char>>) -> Seq<char>
    decreases parts.len(),
{
    if parts.len() == 0 {
        Seq::empty()
    } else if parts.len() == 1 {
        parts[0]
    } else {
        joined_path(parts.drop_last()) + seq!['/'] + parts.last()
    }
}

/// Joins path components into the canonical forward-slash form used for
/// sorting, matching and hashing.
pub fn normalize_rel_path(parts: &Vec<String>) -> (r: String)
    ensures
        r@ == joined_path(parts.deep_view()),
{
    let ghost ps = parts.deep_view();
    let mut out = String::new();
    let n = parts.len();
    let mut i: usize = 0;
    proof {
        assert(ps.take(0) =~= Seq::<Seq<char>>::empty());
    }
    while i < n
        invariant
            0 <= i <= n,
            n == parts@.len(),
            ps == parts.deep_view(),
            ps.len() == n,
            out@ == joined_path(ps.take(i as int)),
        decreases n - i,
    {
        if i > 0 {
            out.append("/");
        }
        out.append(parts[i].as_str());
        proof {
            reveal_strlit("/");
            assert(ps[i as int] == parts@[i as int]@);
            assert(ps.take(i + 1).drop_last() =~= ps.take(i as int));
            assert(ps.take(i + 1).last() == ps[i as int]);
            if i == 0 {
                assert(joined_path(ps.take(1)) == ps.take(1)[0]);
                assert(out@ =~= joined_path(ps.take(1)));
            } else {
                assert(joined_path(ps.take(i + 1)) =~= joined_path(ps.take(i as int)) + seq!['/']
                    + ps[i as int]);
                assert("/"@ =~= seq!['/']);
            }
        }
        i = i + 1;
    }
    proof {
        assert(ps.take(n as int) =~= ps);
    }
    out
}

#[derive(Debug, Clone, Copy, PartialEq, Eq, Structural)]
pub enum EntryKind {
    Dir,
    File,
    Symlink,
    Other,
}

/// One entry of a scanned tree: its kind, its path relative to the tree
/// root split into components, and, for a regular file, its bytes.
#[derive(Debug, Clone)]
pub struct TreeEntry {
    pub kind: EntryKind,
    pub parts: Vec<String>,
    pub data: Vec<u8>,
}

impl TreeEntry {
    /// The entry's normalized relative path.
    pub open spec fn rel(self) -> Seq<char> {
        joined_path(self.parts.deep_view())
    }

    /// The entry as the digest engine sees it: path and bytes.
    pub open spec fn pair(self) -> (Seq<char>, Seq<u8>) {
        (self.rel(), self.data@)
    }
}

/// Only regular files and directories may appear in a digested tree.
pub open spec fn entry_allowed(e: TreeEntry) -> bool {
    e.kind is File || e.kind is Dir
}

/// Whether a relative path is excluded by the ignore patterns.
pub open spec fn ignored(rel: Seq<char>, ignore: Option<Seq<Seq<char>>>) -> bool {
    match ignore {
        Some(pats) => globset_matches(pats, rel),
        None => false,
    }
}

/// Whether an entry contributes to the digest.
pub open spec fn hashed(e: TreeEntry, ignore: Option<Seq<Seq<char>>>) -> bool {
    e.kind is File && !ignored(e.rel(), ignore)
}

/// The (path, bytes) pairs that enter the digest, in entry order.
pub open spec fn hashed_pairs(entries: Seq<TreeEntry>, ignore: Option<Seq<Seq<char>>>) -> Seq<
    (Seq<char>, Seq<u8>),
>
    decreases entries.len(),
{
    if entries.len() == 0 {
        Seq::empty()
    } else {
        let rest = hashed_pairs(entries.drop_last(), ignore);
        if hashed(entries.last(), ignore) {
            rest.push(entries.last().pair())
        } else {
            rest
        }
    }
}

/// Strict order of hashed files: by path, ties broken by content.
pub open spec fn pair_lt(a: (Seq<char>, Seq<u8>), b: (Seq<char>, Seq<u8>)) -> bool {
    lex_lt_chars(a.0, b.0) || (a.0 == b.0 && lex_lt_bytes(a.1, b.1))
}

/// The reflexive closure of `pair_lt`, the order the digest sorts by.
pub open spec fn pair_le_fn() -> spec_fn((Seq<char>, Seq<u8>), (Seq<char>, Seq<u8>)) -> bool {
    |a: (Seq<char>, Seq<u8>), b: (Seq<char>, Seq<u8>)| pair_lt(a, b) || a == b
}

/// The file order is total, so sorting by it is well defined and unique.
pub proof fn lemma_pair_le_total()
    ensures
        total_ordering(pair_le_fn()),
{
    let leq = pair_le_fn();
    assert forall|x: (Seq<char>, Seq<u8>)| #[trigger] leq(x, x) by {}
    assert forall|x: (Seq<char>, Seq<u8>), y: (Seq<char>, Seq<u8>)| #[trigger] leq(x, y)
        && #[trigger] leq(y, x) implies x == y by {
        if x != y {
            if lex_lt_chars(x.0, y.0) {
                lemma_lt_chars_asymmetric(x.0, y.0);
            } else {
                if lex_lt_chars(y.0, x.0) {
                    lemma_lt_chars_asymmetric(y.0, x.0);
                } else {
                    lemma_lt_bytes_asymmetric(x.1, y.1);
                }
            }
        }
    }
    assert forall|x: (Seq<char>, Seq<u8>), y: (Seq<char>, Seq<u8>), z: (Seq<char>, Seq<u8>)|
        #[trigger] leq(x, y) && #[trigger] leq(y, z) implies leq(x, z) by {
        if x != y && y != z {
            if lex_lt_chars(x.0, y.0) && lex_lt_chars(y.0, z.0) {
                lemma_lt_chars_transitive(x.0, y.0, z.0);
            } else if x.0 == y.0 && y.0 == z.0 {
                if lex_lt_bytes(x.1, y.1) && lex_lt_bytes(y.1, z.1) {
                    lemma_lt_bytes_transitive(x.1, y.1, z.1);
                }
            }
        }
    }
    assert forall|x: (Seq<char>, Seq<u8>), y: (Seq<char>, Seq<u8>)| #[trigger] leq(x, y)
        || #[trigger] leq(y, x) by {
        lemma_lt_chars_trichotomy(x.0, y.0);
        if x.0 == y.0 {
            lemma_lt_bytes_trichotomy(x.1, y.1);
        }
    }
}

/// The ghost image of the collected file list.
pub open spec fn pairs_view(s: Seq<(String, Vec<u8>)>) -> Seq<(Seq<char>, Seq<u8>)> {
    s.map_values(|p: (String, Vec<u8>)| (p.0@, p.1@))
}

/// The hashed files in their digest order.
pub open spec fn sorted_pairs(ps: Seq<(Seq<char>, Seq<u8>)>) -> Seq<(Seq<char>, Seq<u8>)> {
    ps.sort_by(pair_le_fn())
}

/// One file's frame in the digest stream: path bytes, NUL, content, NUL.
pub open spec fn encode_pair(p: (Seq<char>, Seq<u8>)) -> Seq<u8> {
    encode_utf8(p.0) + seq![0u8] + p.1 + seq![0u8]
}

/// The whole byte stream fed to the hash, files in the given order.
pub open spec fn stream_of(ps: Seq<(Seq<char>, Seq<u8>)>) -> Seq<u8>
    decreases ps.len(),
{
    if ps.len() == 0 {
        Seq::empty()
    } else {
        stream_of(ps.drop_last()) + encode_pair(ps.last())
    }
}

/// The pattern texts of an optional compiled ignore set.
pub open spec fn ignore_view(ignore: Option<&globset::GlobSet>) -> Option<Seq<Seq<char>>> {
    match ignore {
        Some(g) => Some(globset_patterns(*g)),
        None => None,
    }
}

/// The digest of a tree given as entries: hashed files sorted by path, the
/// framed stream hashed with the chosen algorithm, in lowercase hex.
pub open spec fn tree_digest_spec(
    entries: Seq<TreeEntry>,
    algo: HashAlgo,
    ignore: Option<Seq<Seq<char>>>,
) -> Seq<char> {
    let stream = stream_of(sorted_pairs(hashed_pairs(entries, ignore)));
    match algo {
        HashAlgo::Blake3 => hex_of(blake3_of(stream)),
        HashAlgo::Sha256 => hex_of(sha256_of(stream)),
    }
}

fn clone_bytes(v: &Vec<u8>) -> (r: Vec<u8>)
    ensures
        r@ == v@,
{
    let mut out: Vec<u8> = Vec::new();
    let n = v.len();
    let mut i: usize = 0;
    proof {
        assert(v@.take(0) =~= Seq::<u8>::empty());
    }
    while i < n
        invariant
            0 <= i <= n,
            n == v@.len(),
            out@ == v@.take(i as int),
        decreases n - i,
    {
        out.push(v[i]);
        proof {
            assert(v@.take(i + 1) =~= v@.take(i as int).push(v@[i as int]));
        }
        i = i + 1;
    }
    proof {
        assert(v@.take(n as int) =~= v@);
    }
    out
}

fn pair_lt_exec(a_rel: &String, a_data: &Vec<u8>, b_rel: &String, b_data: &Vec<u8>) -> (r: bool)
    ensures
        r == pair_lt((a_rel@, a_data@), (b_rel@, b_data@)),
{
    if str_lt(a_rel.as_str(), b_rel.as_str()) {
        true
    } else if str_eq(a_rel.as_str(), b_rel.as_str()) {
        bytes_lt(a_data, b_data)
    } else {
        false
    }
}

fn insert_pair_sorted(files: &mut Vec<(String, Vec<u8>)>, rel: String, data: Vec<u8>)
    requires
        sorted_by(pairs_view(old(files)@), pair_le_fn()),
    ensures
        sorted_by(pairs_view(final(files)@), pair_le_fn()),
        pairs_view(final(files)@).to_multiset() == pairs_view(old(files)@).to_multiset().insert(
            (rel@, data@),
        ),
{
    broadcast use group_to_multiset_ensures;

    let ghost newp = (rel@, data@);
    let ghost olds = pairs_view(old(files)@);
    proof {
        lemma_pair_le_total();
    }
    let n = files.len();
    let mut j: usize = 0;
    loop
        invariant
            0 <= j <= n,
            n == files@.len(),
            files@ == old(files)@,
            olds == pairs_view(old(files)@),
            newp == (rel@, data@),
            forall|k: int| 0 <= k < j ==> pair_lt(#[trigger] olds[k], newp),
        ensures
            0 <= j <= n,
            j < n ==> !pair_lt(olds[j as int], newp),
        decreases n - j,
    {
        if j >= n {
            break ;
        }
        let go = pair_lt_exec(&files[j].0, &files[j].1, &rel, &data);
        proof {
            assert(olds[j as int] == (files@[j as int].0@, files@[j as int].1@));
        }
        if !go {
            break ;
        }
        proof {
            assert(pair_lt(olds[j as int], newp));
        }
        j = j + 1;
    }
    proof {
        assert(olds.len() == n);
    }
    files.insert(j, (rel, data));
    proof {
        let leq = pair_le_fn();
        let news = pairs_view(files@);
        assert(files@ == old(files)@.insert(j as int, (rel, data)));
        assert(news =~= olds.insert(j as int, newp)) by {
            assert(news.len() == olds.len() + 1);
            assert forall|k: int| 0 <= k < news.len() implies news[k] == olds.insert(
                j as int,
                newp,
            )[k] by {
                if k < j {
                    assert(files@[k] == old(files)@[k]);
                } else if k > j {
                    assert(files@[k] == old(files)@[k - 1]);
                } else {
                    assert(files@[k] == (rel, data));
                }
            }
        }
        assert forall|k: int| j <= k < olds.len() implies leq(newp, #[trigger] olds[k]) by {
            if !leq(newp, olds[j as int]) {
                assert(leq(olds[j as int], newp));
                assert(pair_lt(olds[j as int], newp) || olds[j as int] == newp);
                assert(false);
            }
            if k > j {
                assert(leq(olds[j as int], olds[k]));
                assert(leq(newp, olds[k]));
            }
        }
        assert forall|p: int, q: int| 0 <= p < q < news.len() implies #[trigger] leq(
            news[p],
            news[q],
        ) by {
            let jj = j as int;
            if q < jj {
                assert(news[p] == olds[p] && news[q] == olds[q]);
                assert(leq(olds[p], olds[q]));
            } else if p < jj && q == jj {
                assert(news[p] == olds[p]);
                assert(pair_lt(olds[p], newp));
            } else if p < jj && q > jj {
                assert(news[p] == olds[p] && news[q] == olds[q - 1]);
                assert(leq(olds[p], olds[q - 1]));
            } else if p == jj {
                assert(news[q] == olds[q - 1]);
                assert(leq(newp, olds[q - 1]));
            } else {
                assert(news[p] == olds[p - 1] && news[q] == olds[q - 1]);
                assert(leq(olds[p - 1], olds[q - 1]));
            }
        }
        assert(news.to_multiset() == olds.to_multiset().insert(newp)) by {
            vstd::seq_lib::to_multiset_insert(olds, j as int, newp);
        }
    }
}

/// Digests a tree presented as scanned entries.
///
/// Succeeds exactly when every entry is a regular file or a directory; a
/// symlink or special file is an `Exec` error. On success the digest is
/// `tree_digest_spec` of the entries, so it depends only on the files'
/// paths and bytes, the algorithm, and the ignore patterns.
pub fn digest_entries(
    entries: &Vec<TreeEntry>,
    algo: HashAlgo,
    ignore: Option<&globset::GlobSet>,
) -> (r: AppResult<String>)
    ensures
        r is Ok <==> (forall|i: int|
            0 <= i < entries@.len() ==> entry_allowed(#[trigger] entries@[i])),
        r is Ok ==> r->Ok_0@ == tree_digest_spec(entries@, algo, ignore_view(ignore)),
        r is Ok ==> r->Ok_0@.len() == 64,
        r is Err ==> r->Err_0 is Exec,
{
    broadcast use group_to_multiset_ensures;

    let ghost ign = ignore_view(ignore);
    let mut files: Vec<(String, Vec<u8>)> = Vec::new();
    let n = entries.len();
    let mut i: usize = 0;
    proof {
        assert(pairs_view(files@) =~= Seq::<(Seq<char>, Seq<u8>)>::empty());
        assert(hashed_pairs(entries@.take(0), ign) =~= Seq::<(Seq<char>, Seq<u8>)>::empty());
        assert(pairs_view(files@).to_multiset() =~= hashed_pairs(
            entries@.take(0),
            ign,
        ).to_multiset());
    }
    while i < n
        invariant
            0 <= i <= n,
            n == entries@.len(),
            ign == ignore_view(ignore),
            forall|k: int| 0 <= k < i ==> entry_allowed(#[trigger] entries@[k]),
            sorted_by(pairs_view(files@), pair_le_fn()),
            pairs_view(files@).to_multiset() == hashed_pairs(entries@.take(i as int), ign)
                .to_multiset(),
        decreases n - i,
    {
        proof {
            assert(entries@.take(i + 1).drop_last() =~= entries@.take(i as int));
            assert(entries@.take(i + 1).last() == entries@[i as int]);
        }
        let e = &entries[i];
        match e.kind {
            EntryKind::File => {
                let rel = normalize_rel_path(&e.parts);
                proof {
                    assert(rel@ == entries@[i as int].rel());
                }
                let skip = match ignore {
                    Some(g) => globset_is_match(g, rel.as_str()),
                    None => false,
                };
                proof {
                    assert(skip == ignored(entries@[i as int].rel(), ign));
                }
                if !skip {
                    let data = clone_bytes(&e.data);
                    proof {
                        assert((rel@, data@) == entries@[i as int].pair());
                    }
                    insert_pair_sorted(&mut files, rel, data);
                    proof {
                        assert(hashed_pairs(entries@.take(i + 1), ign) =~= hashed_pairs(
                            entries@.take(i as int),
                            ign,
                        ).push(entries@[i as int].pair()));
                        vstd::seq_lib::to_multiset_build(
                            hashed_pairs(entries@.take(i as int), ign),
                            entries@[i as int].pair(),
                        );
                        assert(pairs_view(files@).to_multiset() == hashed_pairs(
                            entries@.take(i + 1),
                            ign,
                        ).to_multiset());
                    }
                } else {
                    proof {
                        assert(hashed_pairs(entries@.take(i + 1), ign) =~= hashed_pairs(
                            entries@.take(i as int),
                            ign,
                        ));
                    }
                }
            },
            EntryKind::Dir => {
                proof {
                    assert(hashed_pairs(entries@.take(i + 1), ign) =~= hashed_pairs(
                        entries@.take(i as int),
                        ign,
                    ));
                }
            },
            _ => {
                let rel = normalize_rel_path(&e.parts);
                let mut message = String::from_str("unsupported file type: ");
                message.append(rel.as_str());
                return Err(
                    AppError::exec(message, Some(String::from_str("include only regular files"))),
                );
            },
        }
        i = i + 1;
    }
    proof {
        assert(entries@.take(n as int) =~= entries@);
    }
    let ghost fp = pairs_view(files@);
    proof {
        lemma_pair_le_total();
        hashed_pairs(entries@, ign).lemma_sort_by_ensures(pair_le_fn());
        lemma_sorted_unique(fp, sorted_pairs(hashed_pairs(entries@, ign)), pair_le_fn());
        assert(fp == sorted_pairs(hashed_pairs(entries@, ign)));
    }
    let mut data: Vec<u8> = Vec::new();
    let m = files.len();
    let mut j: usize = 0;
    proof {
        assert(data@ =~= stream_of(fp.take(0)));
    }
    while j < m
        invariant
            0 <= j <= m,
            m == files@.len(),
            fp == pairs_view(files@),
            data@ == stream_of(fp.take(j as int)),
        decreases m - j,
    {
        let mut rel_bytes = files[j].0.as_str().as_bytes_vec();
        let mut content = clone_bytes(&files[j].1);
        proof {
            assert(fp[j as int] == (files@[j as int].0@, files@[j as int].1@));
            assert(rel_bytes@ == encode_utf8(fp[j as int].0));
            assert(content@ == fp[j as int].1);
        }
        let ghost before = data@;
        data.append(&mut rel_bytes);
        data.push(0u8);
        data.append(&mut content);
        data.push(0u8);
        proof {
            assert(fp.take(j + 1).drop_last() =~= fp.take(j as int));
            assert(fp.take(j + 1).last() == fp[j as int]);
            assert(data@ =~= before + encode_pair(fp[j as int]));
            assert(data@ == stream_of(fp.take(j + 1)));
        }
        j = j + 1;
    }
    proof {
        assert(fp.take(m as int) =~= fp);
        assert(data@ == stream_of(sorted_pairs(hashed_pairs(entries@, ign))));
    }
    let digest_bytes = match algo {
        HashAlgo::Blake3 => blake3_digest(&data),
        HashAlgo::Sha256 => sha256_digest(&data),
    };
    let hex = to_hex(&digest_bytes);
    proof {
        lemma_hex_of_len(digest_bytes@);
    }
    Ok(hex)
}

proof fn lemma_hashed_pairs_remove(s: Seq<TreeEntry>, ign: Option<Seq<Seq<char>>>, i: int)
    requires
        0 <= i < s.len(),
    ensures
        hashed_pairs(s, ign).to_multiset() == if hashed(s[i], ign) {
            hashed_pairs(s.remove(i), ign).to_multiset().insert(s[i].pair())
        } else {
            hashed_pairs(s.remove(i), ign).to_multiset()
        },
    decreases s.len(),
{
    broadcast use group_to_multiset_ensures;
    broadcast use vstd::multiset::group_multiset_axioms;

    if i == s.len() - 1 {
        assert(s.remove(i) =~= s.drop_last());
    } else {
        let t = s.drop_last();
        assert(s.remove(i).drop_last() =~= t.remove(i));
        assert(s.remove(i).last() == s.last());
        assert(t[i] == s[i]);
        lemma_hashed_pairs_remove(t, ign, i);
        if hashed(s[i], ign) {
            assert(hashed_pairs(s, ign).to_multiset() =~= hashed_pairs(
                s.remove(i),
                ign,
            ).to_multiset().insert(s[i].pair()));
        } else {
            assert(hashed_pairs(s, ign).to_multiset() =~= hashed_pairs(
                s.remove(i),
                ign,
            ).to_multiset());
        }
    }
}

proof fn lemma_hashed_pairs_perm(
    e1: Seq<TreeEntry>,
    e2: Seq<TreeEntry>,
    ign: Option<Seq<Seq<char>>>,
)
    requires
        e1.to_multiset() == e2.to_multiset(),
    ensures
        hashed_pairs(e1, ign).to_multiset() == hashed_pairs(e2, ign).to_multiset(),
    decreases e1.len(),
{
    broadcast use group_to_multiset_ensures;
    broadcast use vstd::multiset::group_multiset_axioms;

    if e1.len() == 0 {
        assert(e1.to_multiset().len() == e1.len());
        assert(e2.to_multiset().len() == e2.len());
        assert(e2.len() == 0);
    } else {
        let x = e1.last();
        assert(e1 =~= e1.drop_last().push(x));
        assert(e1.to_multiset().contains(x));
        assert(e2.contains(x));
        let i = choose|i: int| 0 <= i < e2.len() && e2[i] == x;
        assert(e1.drop_last().to_multiset() =~= e1.to_multiset().remove(x));
        assert(e2.remove(i).to_multiset() =~= e2.to_multiset().remove(x));
        lemma_hashed_pairs_perm(e1.drop_last(), e2.remove(i), ign);
        lemma_hashed_pairs_remove(e2, ign, i);
        assert(e1.remove(e1.len() - 1) =~= e1.drop_last());
        lemma_hashed_pairs_remove(e1, ign, e1.len() - 1);
    }
}

/// Write-order independence: two trees that hold the same entries, in any
/// enumeration order, have the same digest.
pub proof fn lemma_digest_order_independent(
    e1: Seq<TreeEntry>,
    e2: Seq<TreeEntry>,
    algo: HashAlgo,
    ignore: Option<Seq<Seq<char>>>,
)
    requires
        e1.to_multiset() == e2.to_multiset(),
    ensures
        tree_digest_spec(e1, algo, ignore) == tree_digest_spec(e2, algo, ignore),
{
    lemma_hashed_pairs_perm(e1, e2, ignore);
    lemma_pair_le_total();
    hashed_pairs(e1, ignore).lemma_sort_by_ensures(pair_le_fn());
    hashed_pairs(e2, ignore).lemma_sort_by_ensures(pair_le_fn());
    lemma_sorted_unique(
        sorted_pairs(hashed_pairs(e1, ignore)),
        sorted_pairs(hashed_pairs(e2, ignore)),
        pair_le_fn(),
    );
}

/// Content sensitivity: two file lists that agree everywhere except in one
/// file's bytes feed different byte streams to the hash, so their digests
/// differ unless the hash itself collides.
pub proof fn lemma_stream_distinguishes_content(
    ps1: Seq<(Seq<char>, Seq<u8>)>,
    ps2: Seq<(Seq<char>, Seq<u8>)>,
    k: int,
)
    requires
        ps1.len() == ps2.len(),
        0 <= k < ps1.len(),
        forall|i: int| 0 <= i < ps1.len() && i != k ==> ps1[i] == ps2[i],
        ps1[k].0 == ps2[k].0,
        ps1[k].1 != ps2[k].1,
    ensures
        stream_of(ps1) != stream_of(ps2),
    decreases ps1.len(),
{
    let n = ps1.len();
    if k == n - 1 {
        assert(ps1.drop_last() =~= ps2.drop_last());
        let s = stream_of(ps1.drop_last());
        let p1 = ps1[k];
        let p2 = ps2[k];
        assert(stream_of(ps1) == s + encode_pair(p1));
        assert(stream_of(ps2) == s + encode_pair(p2));
        if p1.1.len() != p2.1.len() {
            assert(stream_of(ps1).len() != stream_of(ps2).len());
        } else {
            assert(exists|j: int| 0 <= j < p1.1.len() && p1.1[j] != p2.1[j]) by {
                if forall|j: int| 0 <= j < p1.1.len() ==> p1.1[j] == p2.1[j] {
                    assert(p1.1 =~= p2.1);
                }
            }
            let j = choose|j: int| 0 <= j < p1.1.len() && p1.1[j] != p2.1[j];
            let base = s.len() + encode_utf8(p1.0).len() + 1;
            assert(encode_pair(p1)[encode_utf8(p1.0).len() + 1 + j] == p1.1[j]);
            assert(encode_pair(p2)[encode_utf8(p2.0).len() + 1 + j] == p2.1[j]);
            assert(stream_of(ps1)[base + j] == p1.1[j]);
            assert(stream_of(ps2)[base + j] == p2.1[j]);
            assert(stream_of(ps1) != stream_of(ps2));
        }
    } else {
        assert(ps1.drop_last().len() == ps2.drop_last().len());
        assert(forall|i: int|
            0 <= i < ps1.drop_last().len() && i != k ==> ps1.drop_last()[i]
                == ps2.drop_last()[i]);
        assert(ps1.drop_last()[k] == ps1[k]);
        assert(ps2.drop_last()[k] == ps2[k]);
        lemma_stream_distinguishes_content(ps1.drop_last(), ps2.drop_last(), k);
        assert(ps1.last() == ps2.last());
        let s1 = stream_of(ps1.drop_last());
        let s2 = stream_of(ps2.drop_last());
        let e = encode_pair(ps1.last());
        assert(stream_of(ps1) == s1 + e);
        assert(stream_of(ps2) == s2 + e);
        if s1.len() != s2.len() {
            assert(stream_of(ps1).len() != stream_of(ps2).len());
        } else if stream_of(ps1) == stream_of(ps2) {
            assert forall|i: int| 0 <= i < s1.len() implies s1[i] == s2[i] by {
                assert((s1 + e)[i] == s1[i]);
                assert((s2 + e)[i] == s2[i]);
            }
            assert(s1 =~= s2);
            assert(false);
        }
    }
}

} // verus!
