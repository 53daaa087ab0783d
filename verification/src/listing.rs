//! Directory listings: partitioning raw directory entries into sorted
//! folder and file name lists, the first step of every snapshot.
//!
//! The two reserved data folders are skipped, symbolic links abort the
//! operation, and both name lists come out in ascending byte order
//! whatever order the entries arrived in.

use vstd::prelude::*;
use vstd::relations::{sorted_by, total_ordering};
use vstd::multiset::Multiset;
use vstd::utf8::encode_utf8;
use crate::bytes::{lex_lt, lemma_lex_connected, lemma_lex_asymmetric, lemma_lex_transitive,
    lemma_lex_irreflexive, bytes_cmp, Cmp};
use crate::errors::TreeError;

verus! {

/// What a directory entry is.
#[derive(Debug, Clone, Copy, PartialEq, Eq, Structural)]
pub enum EntryKind {
    Dir,
    File,
    Symlink,
}

/// One raw directory entry, as the filesystem reported it.
#[derive(Debug, Clone)]
pub struct RawEntry {
    pub name: String,
    pub kind: EntryKind,
}

pub struct REntryV {
    pub name: Seq<char>,
    pub kind: EntryKind,
}

impl View for RawEntry {
    type V = REntryV;

    open spec fn view(&self) -> REntryV {
        REntryV { name: self.name@, kind: self.kind }
    }
}

pub open spec fn entry_views(s: Seq<RawEntry>) -> Seq<REntryV> {
    s.map_values(|e: RawEntry| e@)
}

/// A sorted directory listing: subfolder names and file names.
#[derive(Debug, Clone)]
pub struct Listing {
    pub dirs: Vec<String>,
    pub files: Vec<String>,
}

/// The store's own data folders, never part of a snapshot.
pub open spec fn spec_is_reserved(name: Seq<char>) -> bool {
    name == ".vx"@ || name == ".vxtemp"@
}

/// The folder names a listing keeps, in arrival order.
pub open spec fn spec_dirs_of(es: Seq<REntryV>) -> Seq<Seq<char>>
    decreases es.len(),
{
    if es.len() == 0 {
        Seq::empty()
    } else {
        let rest = spec_dirs_of(es.drop_first());
        if !spec_is_reserved(es[0].name) && es[0].kind == EntryKind::Dir {
            seq![es[0].name] + rest
        } else {
            rest
        }
    }
}

/// The file names a listing keeps, in arrival order.
pub open spec fn spec_files_of(es: Seq<REntryV>) -> Seq<Seq<char>>
    decreases es.len(),
{
    if es.len() == 0 {
        Seq::empty()
    } else {
        let rest = spec_files_of(es.drop_first());
        if !spec_is_reserved(es[0].name) && es[0].kind == EntryKind::File {
            seq![es[0].name] + rest
        } else {
            rest
        }
    }
}

/// Whether any unreserved entry is a symbolic link.
pub open spec fn spec_has_symlink(es: Seq<REntryV>) -> bool {
    exists|i: int|
        0 <= i < es.len() && !spec_is_reserved((#[trigger] es[i]).name) && es[i].kind
            == EntryKind::Symlink
}

/// Byte-wise order on names: `a` at or before `b`.
pub open spec fn name_le(a: Seq<char>, b: Seq<char>) -> bool {
    !lex_lt(encode_utf8(b), encode_utf8(a))
}

pub open spec fn name_le_fn() -> spec_fn(Seq<char>, Seq<char>) -> bool {
    |a: Seq<char>, b: Seq<char>| name_le(a, b)
}

pub open spec fn names_of(v: Seq<String>) -> Seq<Seq<char>> {
    v.map_values(|s: String| s@)
}

/// Equal UTF-8 encodings come from equal character strings.
pub proof fn lemma_name_bytes_injective(a: Seq<char>, b: Seq<char>)
    requires
        encode_utf8(a) == encode_utf8(b),
    ensures
        a == b,
{
    vstd::utf8::encode_utf8_decode_utf8(a);
    vstd::utf8::encode_utf8_decode_utf8(b);
}

/// Byte-wise name order is a total ordering on names.
pub proof fn lemma_name_le_total_ordering()
    ensures
        total_ordering(name_le_fn()),
{
    let leq = name_le_fn();
    assert forall|a: Seq<char>| #[trigger] leq(a, a) by {
        lemma_lex_irreflexive(encode_utf8(a));
    }
    assert forall|a: Seq<char>, b: Seq<char>| #[trigger] leq(a, b) && #[trigger] leq(b, a)
        implies a == b by {
        lemma_lex_connected(encode_utf8(a), encode_utf8(b));
        lemma_name_bytes_injective(a, b);
    }
    assert forall|a: Seq<char>, b: Seq<char>, c: Seq<char>|
        #[trigger] leq(a, b) && #[trigger] leq(b, c) implies leq(a, c) by {
        lemma_name_le_trans(a, b, c);
    }
    assert forall|a: Seq<char>, b: Seq<char>| true implies #[trigger] leq(a, b) || #[trigger] leq(
        b,
        a,
    ) by {
        if lex_lt(encode_utf8(b), encode_utf8(a)) {
            lemma_lex_asymmetric(encode_utf8(b), encode_utf8(a));
        }
    }
}

/// Inserts a name into a sorted vector, keeping it sorted.
fn sorted_insert(v: &mut Vec<String>, item: String)
    requires
        sorted_by(names_of(old(v)@), name_le_fn()),
    ensures
        sorted_by(names_of(final(v)@), name_le_fn()),
        names_of(final(v)@).to_multiset() == names_of(old(v)@).to_multiset().insert(item@),
{
    let len = v.len();
    let mut idx: usize = 0;
    loop
        invariant_except_break
            idx <= len,
            len == v@.len(),
            forall|j: int| 0 <= j < idx ==> lex_lt(
                encode_utf8(#[trigger] names_of(v@)[j]),
                encode_utf8(item@),
            ),
        ensures
            idx <= len,
            len == v@.len(),
            forall|j: int| 0 <= j < idx ==> lex_lt(
                encode_utf8(#[trigger] names_of(v@)[j]),
                encode_utf8(item@),
            ),
            idx < len ==> !lex_lt(encode_utf8(names_of(v@)[idx as int]), encode_utf8(item@)),
        decreases len - idx,
    {
        if idx >= len {
            break ;
        }
        let c = bytes_cmp(v[idx].as_str().as_bytes(), item.as_str().as_bytes());
        if !matches!(c, Cmp::Lt) {
            break ;
        }
        idx = idx + 1;
    }
    v.insert(idx, item);
    proof {
        let nv = names_of(v@);
        let ov = names_of(old(v)@);
        assert(nv =~= ov.insert(idx as int, item@)) by {
            assert forall|j: int| 0 <= j < nv.len() implies #[trigger] nv[j] == ov.insert(
                idx as int,
                item@,
            )[j] by {}
        }
        assert forall|i: int, j: int| 0 <= i < j < nv.len() implies #[trigger] name_le_fn()(
            nv[i],
            nv[j],
        ) by {
            if j < idx {
                assert(name_le_fn()(ov[i], ov[j]));
            } else if i > idx {
                assert(name_le_fn()(ov[i - 1], ov[j - 1]));
            } else if i < idx && j == idx {
                lemma_lex_asymmetric(encode_utf8(ov[i]), encode_utf8(item@));
            } else if i == idx {
                if j == idx + 1 {
                    assert(!lex_lt(encode_utf8(ov[idx as int]), encode_utf8(item@)));
                } else {
                    assert(name_le_fn()(ov[idx as int], ov[j - 1]));
                    assert(!lex_lt(encode_utf8(ov[idx as int]), encode_utf8(item@)));
                    lemma_name_le_trans(item@, ov[idx as int], ov[j - 1]);
                }
            } else {
                assert(i < idx && j > idx);
                assert(name_le_fn()(ov[i], ov[j - 1]));
            }
        }
        assert(nv.to_multiset() == ov.to_multiset().insert(item@)) by {
            vstd::seq_lib::to_multiset_insert(ov, idx as int, item@);
        }
    }
}

/// `le` on names is transitive.
pub proof fn lemma_name_le_trans(a: Seq<char>, b: Seq<char>, c: Seq<char>)
    requires
        name_le(a, b),
        name_le(b, c),
    ensures
        name_le(a, c),
{
    let ea = encode_utf8(a);
    let eb = encode_utf8(b);
    let ec = encode_utf8(c);
    if lex_lt(ec, ea) {
        if lex_lt(eb, ec) {
            lemma_lex_transitive(eb, ec, ea);
        } else {
            lemma_lex_connected(eb, ec);
        }
    }
}

/// Whether two strings hold the same characters, compared byte-wise.
fn str_eq_bytes(a: &str, b: &str) -> (r: bool)
    ensures
        r == (a@ == b@),
{
    let c = bytes_cmp(a.as_bytes(), b.as_bytes());
    proof {
        if crate::bytes::spec_cmp(encode_utf8(a@), encode_utf8(b@)) is Eq {
            lemma_lex_connected(encode_utf8(a@), encode_utf8(b@));
            lemma_name_bytes_injective(a@, b@);
        } else {
            if a@ == b@ {
                lemma_lex_irreflexive(encode_utf8(a@));
            }
        }
    }
    matches!(c, Cmp::Eq)
}

/// Partitions raw directory entries into sorted folder and file name
/// lists: the reserved data folders are skipped, a symbolic link aborts
/// with an error, and both lists come out in ascending byte order.
pub fn build_listing(entries: &Vec<RawEntry>) -> (r: Result<Listing, TreeError>)
    ensures
        match r {
            Ok(l) => {
                &&& sorted_by(names_of(l.dirs@), name_le_fn())
                &&& sorted_by(names_of(l.files@), name_le_fn())
                &&& names_of(l.dirs@).to_multiset() == spec_dirs_of(
                    entry_views(entries@),
                ).to_multiset()
                &&& names_of(l.files@).to_multiset() == spec_files_of(
                    entry_views(entries@),
                ).to_multiset()
                &&& !spec_has_symlink(entry_views(entries@))
            },
            Err(e) => e is SymlinkNotSupported && spec_has_symlink(entry_views(entries@)),
        },
{
    broadcast use vstd::seq_lib::group_to_multiset_ensures;
    broadcast use vstd::multiset::group_multiset_axioms;

    let mut dirs: Vec<String> = Vec::new();
    let mut files: Vec<String> = Vec::new();
    let n = entries.len();
    let mut i: usize = 0;
    proof {
        let ev = entry_views(entries@);
        assert(ev.skip(0) =~= ev);
        assert(names_of(dirs@) =~= Seq::<Seq<char>>::empty());
        assert(names_of(files@) =~= Seq::<Seq<char>>::empty());
        assert(Seq::<Seq<char>>::empty().to_multiset() =~= Multiset::<Seq<char>>::empty());
    }
    while i < n
        invariant
            i <= n,
            n == entries@.len(),
            sorted_by(names_of(dirs@), name_le_fn()),
            sorted_by(names_of(files@), name_le_fn()),
            names_of(dirs@).to_multiset().add(
                spec_dirs_of(entry_views(entries@).skip(i as int)).to_multiset(),
            ) == spec_dirs_of(entry_views(entries@)).to_multiset(),
            names_of(files@).to_multiset().add(
                spec_files_of(entry_views(entries@).skip(i as int)).to_multiset(),
            ) == spec_files_of(entry_views(entries@)).to_multiset(),
            forall|j: int|
                0 <= j < i ==> !(!spec_is_reserved((#[trigger] entry_views(entries@)[j]).name)
                    && entry_views(entries@)[j].kind == EntryKind::Symlink),
        decreases n - i,
    {
        let e = &entries[i];
        let reserved = str_eq_bytes(e.name.as_str(), ".vx") || str_eq_bytes(
            e.name.as_str(),
            ".vxtemp",
        );
        proof {
            let ev = entry_views(entries@);
            assert(ev[i as int] == entries@[i as int]@);
            assert(reserved == spec_is_reserved(ev[i as int].name));
            assert(ev.skip(i as int)[0] == ev[i as int]);
            assert(ev.skip(i as int).drop_first() =~= ev.skip(i + 1));
        }
        if !reserved {
            match e.kind {
                EntryKind::Symlink => {
                    proof {
                        let ev = entry_views(entries@);
                        assert(!spec_is_reserved(ev[i as int].name) && ev[i as int].kind
                            == EntryKind::Symlink);
                    }
                    return Err(TreeError::SymlinkNotSupported(e.name.clone()));
                },
                EntryKind::Dir => {
                    proof {
                        let ev = entry_views(entries@);
                        let sd = spec_dirs_of(ev.skip(i as int));
                        let rest = spec_dirs_of(ev.skip(i + 1));
                        assert(sd == seq![ev[i as int].name] + rest);
                        assert(seq![ev[i as int].name] + rest =~= rest.insert(
                            0,
                            ev[i as int].name,
                        ));
                        vstd::seq_lib::to_multiset_insert(rest, 0, ev[i as int].name);
                    }
                    sorted_insert(&mut dirs, e.name.clone());
                },
                EntryKind::File => {
                    proof {
                        let ev = entry_views(entries@);
                        let sf = spec_files_of(ev.skip(i as int));
                        let rest = spec_files_of(ev.skip(i + 1));
                        assert(sf == seq![ev[i as int].name] + rest);
                        assert(seq![ev[i as int].name] + rest =~= rest.insert(
                            0,
                            ev[i as int].name,
                        ));
                        vstd::seq_lib::to_multiset_insert(rest, 0, ev[i as int].name);
                    }
                    sorted_insert(&mut files, e.name.clone());
                },
            }
        }
        i = i + 1;
    }
    proof {
        let ev = entry_views(entries@);
        assert(ev.skip(n as int) =~= Seq::<REntryV>::empty());
        assert(Seq::<Seq<char>>::empty().to_multiset() =~= Multiset::<Seq<char>>::empty());
        assert(!spec_has_symlink(ev)) by {
            if spec_has_symlink(ev) {
                let j = choose|j: int|
                    0 <= j < ev.len() && !spec_is_reserved((#[trigger] ev[j]).name) && ev[j].kind
                        == EntryKind::Symlink;
            }
        }
    }
    Ok(Listing { dirs, files })
}

/// Determinism of listing: two listings sorted by byte order that keep
/// the same names are the same listing, whatever order the filesystem
/// reported the entries in.  With the node digest a function of the
/// sorted entries, byte-identical directories always hash alike.
pub proof fn lemma_sorted_names_unique(d1: Seq<Seq<char>>, d2: Seq<Seq<char>>)
    requires
        sorted_by(d1, name_le_fn()),
        sorted_by(d2, name_le_fn()),
        d1.to_multiset() == d2.to_multiset(),
    ensures
        d1 == d2,
{
    lemma_name_le_total_ordering();
    vstd::seq_lib::lemma_sorted_unique(d1, d2, name_le_fn());
}

} // verus!
