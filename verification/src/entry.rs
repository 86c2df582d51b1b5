//! Directory-entry and journal-entry records, and the order in which
//! journal entries are listed.

use crate::frontmatter::{body_of, excerpt_of, fields_of, parse_frontmatter};
use crate::text::texts;
use vstd::prelude::*;

verus! {

/// What a `DirEntry` stands for.
pub struct DirEntryModel {
    pub name: Seq<char>,
    pub is_dir: bool,
    pub mtime_ms: u64,
}

/// One item of a directory listing.
pub struct DirEntry {
    pub name: String,
    pub is_dir: bool,
    pub mtime_ms: u64,
}

impl View for DirEntry {
    type V = DirEntryModel;

    open spec fn view(&self) -> DirEntryModel {
        DirEntryModel { name: self.name@, is_dir: self.is_dir, mtime_ms: self.mtime_ms }
    }
}

/// What an `EntryMetadata` stands for.
pub struct EntryModel {
    pub dirname: Seq<char>,
    pub path: Seq<char>,
    pub mtime_ms: u64,
    pub title: Seq<char>,
    pub date: Seq<char>,
    pub tags: Seq<Seq<char>>,
    pub excerpt: Seq<char>,
}

/// One journal entry: its directory, its index document and what the
/// document's frontmatter says.
pub struct EntryMetadata {
    pub dirname: String,
    pub path: String,
    pub mtime_ms: u64,
    pub title: String,
    pub date: String,
    pub tags: Vec<String>,
    pub excerpt: String,
}

impl View for EntryMetadata {
    type V = EntryModel;

    open spec fn view(&self) -> EntryModel {
        EntryModel {
            dirname: self.dirname@,
            path: self.path@,
            mtime_ms: self.mtime_ms,
            title: self.title@,
            date: self.date@,
            tags: texts(self.tags@),
            excerpt: self.excerpt@,
        }
    }
}

/// A modification time as milliseconds since the epoch, cut to 64 bits;
/// 0 where the time is not known.
pub open spec fn mtime_of(millis: Option<u128>) -> u64 {
    match millis {
        Some(m) => (m % 0x1_0000_0000_0000_0000) as u64,
        None => 0,
    }
}

/// The modification time to record for a file last modified `millis`
/// milliseconds after the epoch, if that is known.
pub fn mtime_millis(millis: Option<u128>) -> (r: u64)
    ensures
        r == mtime_of(millis),
{
    match millis {
        Some(m) => {
            assert(m & 0xffff_ffff_ffff_ffff == m % 0x1_0000_0000_0000_0000) by (bit_vector);
            (m & 0xffff_ffff_ffff_ffff) as u64
        },
        None => 0,
    }
}

/// The entry that the index document `content` describes.
pub open spec fn entry_of(
    dirname: Seq<char>,
    path: Seq<char>,
    mtime_ms: u64,
    content: Seq<char>,
) -> EntryModel {
    EntryModel {
        dirname,
        path,
        mtime_ms,
        title: fields_of(content).title,
        date: fields_of(content).date,
        tags: fields_of(content).tags,
        excerpt: excerpt_of(body_of(content)),
    }
}

impl DirEntry {
    /// The listing item for a file or directory `name`, last modified
    /// `millis` milliseconds after the epoch, if that is known.
    pub fn new(name: String, is_dir: bool, millis: Option<u128>) -> (r: DirEntry)
        ensures
            r@ == (DirEntryModel { name: name@, is_dir, mtime_ms: mtime_of(millis) }),
    {
        DirEntry { name, is_dir, mtime_ms: mtime_millis(millis) }
    }
}

impl EntryMetadata {
    /// The entry in directory `dirname` whose index document at `path`
    /// holds `content`.
    pub fn from_document(dirname: String, path: String, mtime_ms: u64, content: &str) -> (r:
        EntryMetadata)
        ensures
            r@ == entry_of(dirname@, path@, mtime_ms, content@),
    {
        let (title, date, tags, excerpt) = parse_frontmatter(content);
        EntryMetadata { dirname, path, mtime_ms, title, date, tags, excerpt }
    }
}

/// The views of the entries of `s`, in order.
pub open spec fn models(s: Seq<EntryMetadata>) -> Seq<EntryModel> {
    Seq::new(s.len(), |i: int| s[i]@)
}

/// The number of leading entries of `s` that are at least as new as `t`.
pub open spec fn rank(s: Seq<EntryModel>, t: u64) -> int
    decreases s.len(),
{
    if s.len() > 0 && s[0].mtime_ms >= t {
        1 + rank(s.drop_first(), t)
    } else {
        0
    }
}

/// The entries of `s` from newest to oldest; entries of the same age keep
/// the order they have in `s`.
pub open spec fn newest_first(s: Seq<EntryModel>) -> Seq<EntryModel>
    decreases s.len(),
{
    if s.len() == 0 {
        s
    } else {
        let r = newest_first(s.drop_last());
        r.insert(rank(r, s.last().mtime_ms), s.last())
    }
}

/// Whether no entry of `s` is newer than one before it.
pub open spec fn is_newest_first(s: Seq<EntryModel>) -> bool {
    forall|i: int, j: int| 0 <= i < j < s.len() ==> s[i].mtime_ms >= s[j].mtime_ms
}

/// `rank` is a position of `s`; all entries before it are at least as new
/// as `t`, and the entry at it, if there is one, is older.
pub proof fn lemma_rank(s: Seq<EntryModel>, t: u64)
    ensures
        0 <= rank(s, t) <= s.len(),
        forall|i: int| 0 <= i < rank(s, t) ==> s[i].mtime_ms >= t,
        rank(s, t) < s.len() ==> s[rank(s, t)].mtime_ms < t,
    decreases s.len(),
{
    if s.len() > 0 && s[0].mtime_ms >= t {
        lemma_rank(s.drop_first(), t);
        assert forall|i: int| 0 <= i < rank(s, t) implies s[i].mtime_ms >= t by {
            if i > 0 {
                assert(s[i] == s.drop_first()[i - 1]);
            }
        }
    }
}

/// `newest_first` keeps the length, and its result is ordered from newest
/// to oldest.
pub proof fn lemma_newest_first_ordered(s: Seq<EntryModel>)
    ensures
        newest_first(s).len() == s.len(),
        is_newest_first(newest_first(s)),
    decreases s.len(),
{
    if s.len() > 0 {
        let r = newest_first(s.drop_last());
        let t = s.last().mtime_ms;
        lemma_newest_first_ordered(s.drop_last());
        lemma_rank(r, t);
    }
}

/// `newest_first` only reorders: its result holds each entry as often as
/// `s` does.
pub proof fn lemma_newest_first_permutes(s: Seq<EntryModel>)
    ensures
        newest_first(s).to_multiset() == s.to_multiset(),
    decreases s.len(),
{
    broadcast use vstd::seq_lib::group_to_multiset_ensures;

    if s.len() > 0 {
        let r = newest_first(s.drop_last());
        let t = s.last().mtime_ms;
        lemma_newest_first_permutes(s.drop_last());
        lemma_rank(r, t);
        assert(s.drop_last().push(s.last()) =~= s);
    }
}

/// The entries of `s` last modified at `t`, in the order of `s`.
pub open spec fn of_age(s: Seq<EntryModel>, t: u64) -> Seq<EntryModel>
    decreases s.len(),
{
    if s.len() == 0 {
        s
    } else if s.last().mtime_ms == t {
        of_age(s.drop_last(), t).push(s.last())
    } else {
        of_age(s.drop_last(), t)
    }
}

/// The entries of an age in `a + b` are those in `a`, then those in `b`.
pub proof fn lemma_of_age_concat(a: Seq<EntryModel>, b: Seq<EntryModel>, t: u64)
    ensures
        of_age(a + b, t) == of_age(a, t) + of_age(b, t),
    decreases b.len(),
{
    if b.len() == 0 {
        assert(a + b =~= a);
        assert(of_age(a, t) + of_age(b, t) =~= of_age(a, t));
    } else {
        lemma_of_age_concat(a, b.drop_last(), t);
        assert((a + b).drop_last() =~= a + b.drop_last());
        assert((a + b).last() == b.last());
        if b.last().mtime_ms == t {
            assert((of_age(a, t) + of_age(b.drop_last(), t)).push(b.last()) =~= of_age(a, t)
                + of_age(b.drop_last(), t).push(b.last()));
        }
    }
}

/// Where no entry of `s` was last modified at `t`, none is of that age.
pub proof fn lemma_of_age_none(s: Seq<EntryModel>, t: u64)
    requires
        forall|i: int| 0 <= i < s.len() ==> s[i].mtime_ms != t,
    ensures
        of_age(s, t) == Seq::<EntryModel>::empty(),
    decreases s.len(),
{
    if s.len() > 0 {
        lemma_of_age_none(s.drop_last(), t);
    } else {
        assert(s =~= Seq::<EntryModel>::empty());
    }
}

/// `newest_first` is stable: the entries of one age stand in its result in
/// the order they have in `s`.
pub proof fn lemma_newest_first_stable(s: Seq<EntryModel>, t: u64)
    ensures
        of_age(newest_first(s), t) == of_age(s, t),
    decreases s.len(),
{
    if s.len() > 0 {
        let d = s.drop_last();
        let e = s.last();
        let r = newest_first(d);
        let k = rank(r, e.mtime_ms);
        lemma_newest_first_stable(d, t);
        lemma_newest_first_ordered(d);
        lemma_rank(r, e.mtime_ms);
        let front = r.take(k);
        let back = r.skip(k);
        assert(r =~= front + back);
        assert(r.insert(k, e) =~= (front + seq![e]) + back);
        lemma_of_age_concat(front, back, t);
        lemma_of_age_concat(front + seq![e], back, t);
        lemma_of_age_concat(front, seq![e], t);
        assert(seq![e].drop_last() =~= Seq::<EntryModel>::empty());
        assert(of_age(Seq::<EntryModel>::empty(), t) =~= Seq::<EntryModel>::empty());
        if e.mtime_ms == t {
            assert forall|i: int| 0 <= i < back.len() implies back[i].mtime_ms != t by {
                assert(back[i] == r[k + i]);
                assert(r[k].mtime_ms < t);
            }
            lemma_of_age_none(back, t);
            assert(of_age(seq![e], t) =~= seq![e]);
            assert(of_age(front, t) + Seq::<EntryModel>::empty() =~= of_age(front, t));
            assert((of_age(front, t) + seq![e]) + Seq::<EntryModel>::empty() =~= of_age(front, t).push(e));
        } else {
            assert(of_age(seq![e], t) =~= Seq::<EntryModel>::empty());
            assert(of_age(front, t) + Seq::<EntryModel>::empty() =~= of_age(front, t));
        }
    }
}

/// Position in `out` at which an entry last modified at `t` is placed.
fn rank_in(out: &Vec<EntryMetadata>, t: u64) -> (j: usize)
    ensures
        j == rank(models(out@), t),
        j <= out.len(),
{
    let mut j: usize = 0;
    assert(models(out@).subrange(0, out.len() as int) =~= models(out@));
    while j < out.len() && out[j].mtime_ms >= t
        invariant
            j <= out.len(),
            rank(models(out@), t) == j + rank(models(out@).subrange(j as int, out.len() as int), t),
        decreases out.len() - j,
    {
        assert(models(out@).subrange(j as int, out.len() as int).drop_first() =~= models(
            out@,
        ).subrange(j + 1, out.len() as int));
        j = j + 1;
    }
    j
}

/// Orders `entries` from newest to oldest by modification time. Entries
/// with the same time keep their order.
pub fn sort_newest_first(entries: Vec<EntryMetadata>) -> (r: Vec<EntryMetadata>)
    ensures
        models(r@) == newest_first(models(entries@)),
        r.len() == entries.len(),
        is_newest_first(models(r@)),
        models(r@).to_multiset() == models(entries@).to_multiset(),
        forall|t: u64| of_age(models(r@), t) == of_age(models(entries@), t),
{
    let ghost orig = models(entries@);
    let mut rest = entries;
    let mut out: Vec<EntryMetadata> = Vec::new();
    let n = rest.len();
    let mut i: usize = 0;
    assert(models(out@) =~= newest_first(orig.take(0)));
    while i < n
        invariant
            i <= n,
            n == orig.len(),
            rest.len() == n - i,
            models(rest@) == orig.subrange(i as int, n as int),
            models(out@) == newest_first(orig.take(i as int)),
            out.len() == i,
        decreases n - i,
    {
        let ghost before = models(out@);
        let ghost tail = models(rest@);
        let ghost held = rest@;
        let e = rest.remove(0);
        assert(e@ == tail[0]);
        let j = rank_in(&out, e.mtime_ms);
        out.insert(j, e);
        proof {
            assert(orig.take(i + 1).drop_last() =~= orig.take(i as int));
            assert(orig.take(i + 1).last() == e@);
            assert(models(out@) =~= before.insert(j as int, e@));
            assert forall|k: int| 0 <= k < rest.len() implies models(rest@)[k] == orig[i + 1 + k] by {
                assert(rest@[k] == held[k + 1]);
                assert(tail[k + 1] == held[k + 1]@);
            }
            assert(models(rest@) =~= orig.subrange(i + 1, n as int));
        }
        i = i + 1;
    }
    proof {
        assert(orig.take(n as int) =~= orig);
        lemma_newest_first_ordered(orig);
        lemma_newest_first_permutes(orig);
        assert forall|t: u64| of_age(newest_first(orig), t) == of_age(orig, t) by {
            lemma_newest_first_stable(orig, t);
        }
    }
    out
}

/// An index document as read from disk, with the directory it lies in.
pub struct IndexDocument {
    pub dirname: String,
    pub path: String,
    pub mtime_ms: u64,
    pub content: String,
}

/// The entries that `docs` describe, in the order of `docs`.
pub open spec fn entries_of(docs: Seq<IndexDocument>) -> Seq<EntryModel> {
    Seq::new(
        docs.len(),
        |i: int| entry_of(docs[i].dirname@, docs[i].path@, docs[i].mtime_ms, docs[i].content@),
    )
}

/// The listing of the journal whose index documents are `docs`: one entry
/// for each document, newest first.
pub fn list_entries(docs: Vec<IndexDocument>) -> (r: Vec<EntryMetadata>)
    ensures
        models(r@) == newest_first(entries_of(docs@)),
        r.len() == docs.len(),
        is_newest_first(models(r@)),
        models(r@).to_multiset() == entries_of(docs@).to_multiset(),
        forall|t: u64| of_age(models(r@), t) == of_age(entries_of(docs@), t),
{
    let ghost all = docs@;
    let mut rest = docs;
    let mut entries: Vec<EntryMetadata> = Vec::new();
    while rest.len() > 0
        invariant
            rest.len() <= all.len(),
            entries.len() == all.len() - rest.len(),
            rest@ == all.subrange(entries.len() as int, all.len() as int),
            models(entries@) == entries_of(all).take(entries.len() as int),
        decreases rest.len(),
    {
        let ghost before = models(entries@);
        let ghost k = entries.len() as int;
        let d = rest.remove(0);
        assert(d == all[k]);
        let e = EntryMetadata::from_document(d.dirname, d.path, d.mtime_ms, d.content.as_str());
        entries.push(e);
        proof {
            assert(rest@ =~= all.subrange(k + 1, all.len() as int));
            assert(models(entries@) =~= before.push(e@));
            assert(models(entries@) =~= entries_of(all).take(k + 1));
        }
    }
    assert(entries_of(all).take(all.len() as int) =~= entries_of(all));
    sort_newest_first(entries)
}

} // verus!
