//! Frontmatter of an entry's index document: a leading block between
//! `---` marker lines holding `key: value` lines, followed by the body.

use crate::text::{
    chars_of, find_at, first_index, is_space, lemma_trim, texts, trim, trim_at, trim_start,
    trim_start_at,
};
use vstd::prelude::*;

verus! {

/// The fields read from a frontmatter block.
pub struct Fields {
    pub title: Seq<char>,
    pub date: Seq<char>,
    pub tags: Seq<Seq<char>>,
}

/// The fields of a document without frontmatter.
pub open spec fn no_fields() -> Fields {
    Fields { title: Seq::empty(), date: Seq::empty(), tags: Seq::empty() }
}

/// Whether `s` is wrapped in a pair of double quotes or a pair of single quotes.
pub open spec fn is_quoted(s: Seq<char>) -> bool {
    s.len() >= 2 && ((s[0] == '"' && s.last() == '"') || (s[0] == '\'' && s.last() == '\''))
}

/// `s` without its one pair of surrounding quotes, if it has one.
pub open spec fn unquoted(s: Seq<char>) -> Seq<char> {
    if is_quoted(s) {
        s.subrange(1, s.len() - 1)
    } else {
        s
    }
}

/// The non-empty items of a comma-separated list, each trimmed and unquoted.
pub open spec fn tag_list(inner: Seq<char>) -> Seq<Seq<char>>
    decreases inner.len(),
{
    let n = first_index(inner, ',');
    let item = unquoted(trim(inner.take(n)));
    let head = if item.len() > 0 {
        seq![item]
    } else {
        Seq::empty()
    };
    if 0 <= n < inner.len() {
        head + tag_list(inner.skip(n + 1))
    } else {
        head
    }
}

/// Whether `s` starts with `[` and ends with `]`.
pub open spec fn is_bracketed(s: Seq<char>) -> bool {
    s.len() > 0 && s[0] == '[' && s.last() == ']'
}

/// The fields after one line of the block: a line `key: value` with key
/// `title`, `date` or `tags` replaces that field, any other line changes
/// nothing. A `tags` value that is not a bracketed list changes nothing.
pub open spec fn read_line(acc: Fields, line: Seq<char>) -> Fields {
    let t = trim(line);
    let pos = first_index(t, ':');
    if 0 <= pos < t.len() {
        let key = trim(t.take(pos));
        let val = trim(t.skip(pos + 1));
        if key == "title"@ {
            Fields { title: unquoted(val), ..acc }
        } else if key == "date"@ {
            Fields { date: unquoted(val), ..acc }
        } else if key == "tags"@ && is_bracketed(val) {
            Fields { tags: tag_list(val.subrange(1, val.len() - 1)), ..acc }
        } else {
            acc
        }
    } else {
        acc
    }
}

/// The fields after all lines of `block`, read in order starting from `acc`.
pub open spec fn read_block(acc: Fields, block: Seq<char>) -> Fields
    decreases block.len(),
{
    let n = first_index(block, '\n');
    let next = read_line(acc, block.take(n));
    if 0 <= n < block.len() {
        read_block(next, block.skip(n + 1))
    } else {
        next
    }
}

/// Whether `s` starts with the opening marker `---`.
pub open spec fn opens(s: Seq<char>) -> bool {
    s.len() >= 3 && s[0] == '-' && s[1] == '-' && s[2] == '-'
}

/// Whether a line break followed by `---` stands at position `i` of `s`.
pub open spec fn closes_at(s: Seq<char>, i: int) -> bool {
    0 <= i && i + 4 <= s.len() && s[i] == '\n' && s[i + 1] == '-' && s[i + 2] == '-' && s[i + 3]
        == '-'
}

/// The first position at or after `from` where the closing marker stands,
/// or `s.len()` if there is none.
pub open spec fn closing_from(s: Seq<char>, from: int) -> int
    decreases s.len() - from,
{
    if from < 0 || from >= s.len() {
        s.len() as int
    } else if closes_at(s, from) {
        from
    } else {
        closing_from(s, from + 1)
    }
}

/// `closing_from` is at or after `from`; where it is inside `s` the closing
/// marker stands there, and it stands nowhere between `from` and it.
pub proof fn lemma_closing_from(s: Seq<char>, from: int)
    requires
        0 <= from <= s.len(),
    ensures
        from <= closing_from(s, from) <= s.len(),
        closing_from(s, from) < s.len() ==> closes_at(s, closing_from(s, from)),
        forall|i: int| from <= i < closing_from(s, from) ==> !closes_at(s, i),
    decreases s.len() - from,
{
    if from < s.len() && !closes_at(s, from) {
        lemma_closing_from(s, from + 1);
    }
}

/// Whether `s` starts with a frontmatter block: the opening marker and,
/// somewhere after it, the closing one.
pub open spec fn has_block(s: Seq<char>) -> bool {
    opens(s) && closing_from(s, 3) < s.len()
}

/// The lines between the markers: what stands after the opening marker and
/// the one character that follows it, up to the closing marker.
pub open spec fn block_of(s: Seq<char>) -> Seq<char> {
    let end = closing_from(s, 3);
    if 4 <= end <= s.len() {
        s.subrange(4, end)
    } else {
        Seq::empty()
    }
}

/// The fields of the document `s`.
pub open spec fn fields_of(s: Seq<char>) -> Fields {
    if has_block(s) {
        read_block(no_fields(), block_of(s))
    } else {
        no_fields()
    }
}

/// The body of the document `s`: what follows the closing marker, without
/// leading whitespace; the whole document where it has no frontmatter.
pub open spec fn body_of(s: Seq<char>) -> Seq<char> {
    if has_block(s) {
        trim_start(s.skip(closing_from(s, 3) + 4))
    } else {
        s
    }
}

/// The part of `body` that the excerpt is cut from: a first line that is a
/// heading (it starts with `#`) is left out.
pub open spec fn excerpt_source(body: Seq<char>) -> Seq<char> {
    if body.len() > 0 && body[0] == '#' {
        let n = first_index(body, '\n');
        if 0 <= n < body.len() {
            body.skip(n + 1)
        } else {
            Seq::empty()
        }
    } else {
        body
    }
}

/// The excerpt of `body`: the first 300 characters of its source, trimmed.
pub open spec fn excerpt_of(body: Seq<char>) -> Seq<char> {
    let src = excerpt_source(body);
    trim(
        src.take(
            if src.len() < 300 {
                src.len() as int
            } else {
                300
            },
        ),
    )
}

/// Whether no text of `tags` is empty.
pub open spec fn all_filled(tags: Seq<Seq<char>>) -> bool {
    forall|i: int| 0 <= i < tags.len() ==> (#[trigger] tags[i]).len() > 0
}

/// A tag list holds no empty tag.
pub proof fn lemma_tag_list_filled(inner: Seq<char>)
    ensures
        all_filled(tag_list(inner)),
    decreases inner.len(),
{
    let n = first_index(inner, ',');
    if 0 <= n < inner.len() {
        lemma_tag_list_filled(inner.skip(n + 1));
    }
}

/// Reading a block adds no empty tag.
pub proof fn lemma_read_block_filled(acc: Fields, block: Seq<char>)
    requires
        all_filled(acc.tags),
    ensures
        all_filled(read_block(acc, block).tags),
    decreases block.len(),
{
    let n = first_index(block, '\n');
    let line = block.take(n);
    let t = trim(line);
    let pos = first_index(t, ':');
    if 0 <= pos < t.len() {
        let val = trim(t.skip(pos + 1));
        lemma_tag_list_filled(val.subrange(1, val.len() - 1));
    }
    if 0 <= n < block.len() {
        lemma_read_block_filled(read_line(acc, line), block.skip(n + 1));
    }
}

/// No document has an empty tag, and no excerpt is longer than 300
/// characters or starts or ends with whitespace.
pub proof fn lemma_document_bounds(s: Seq<char>)
    ensures
        all_filled(fields_of(s).tags),
        excerpt_of(body_of(s)).len() <= 300,
        excerpt_of(body_of(s)).len() > 0 ==> !is_space(excerpt_of(body_of(s))[0]) && !is_space(
            excerpt_of(body_of(s)).last(),
        ),
{
    if has_block(s) {
        lemma_read_block_filled(no_fields(), block_of(s));
    }
    let src = excerpt_source(body_of(s));
    let cut = src.take(
        if src.len() < 300 {
            src.len() as int
        } else {
            300
        },
    );
    lemma_trim(cut);
}

/// A document that does not start with the opening marker has no fields
/// and is all body.
pub proof fn lemma_plain_document(s: Seq<char>)
    requires
        !opens(s),
    ensures
        fields_of(s) == no_fields(),
        body_of(s) == s,
{
}

/// The fields of a frontmatter block, as owned strings.
struct Frontmatter {
    title: String,
    date: String,
    tags: Vec<String>,
}

impl View for Frontmatter {
    type V = Fields;

    closed spec fn view(&self) -> Fields {
        Fields { title: self.title@, date: self.date@, tags: texts(self.tags@) }
    }
}

/// Whether the span `[lo, hi)` of `v` spells `word`.
fn span_is(v: &Vec<char>, lo: usize, hi: usize, word: &str) -> (r: bool)
    requires
        lo <= hi <= v.len(),
    ensures
        r == (v@.subrange(lo as int, hi as int) == word@),
{
    let w = chars_of(word);
    if w.len() != hi - lo {
        return false;
    }
    let mut i: usize = 0;
    while i < w.len()
        invariant
            lo <= hi <= v.len(),
            w.len() == hi - lo,
            w@ == word@,
            i <= w.len(),
            forall|j: int| 0 <= j < i ==> v@[lo + j] == w@[j],
        decreases w.len() - i,
    {
        if v[lo + i] != w[i] {
            assert(v@.subrange(lo as int, hi as int)[i as int] != w@[i as int]);
            return false;
        }
        i = i + 1;
    }
    assert(v@.subrange(lo as int, hi as int) =~= w@);
    true
}

/// The span `[lo, hi)` of `v` without its pair of surrounding quotes.
fn unquote_at(v: &Vec<char>, lo: usize, hi: usize) -> (r: (usize, usize))
    requires
        lo <= hi <= v.len(),
    ensures
        lo <= r.0 <= r.1 <= hi,
        v@.subrange(r.0 as int, r.1 as int) == unquoted(v@.subrange(lo as int, hi as int)),
{
    if hi - lo >= 2 && ((v[lo] == '"' && v[hi - 1] == '"') || (v[lo] == '\'' && v[hi - 1]
        == '\'')) {
        assert(v@.subrange(lo as int, hi as int).subrange(1, hi - lo - 1) =~= v@.subrange(
            lo + 1,
            hi - 1,
        ));
        (lo + 1, hi - 1)
    } else {
        (lo, hi)
    }
}

/// Removes one pair of surrounding quotes, double or single, from `s`.
/// A string that is a single quote character is returned as it is.
pub fn strip_quotes(s: &str) -> (r: &str)
    ensures
        r@ == unquoted(s@),
{
    let v = chars_of(s);
    let (a, b) = unquote_at(&v, 0, v.len());
    assert(v@.subrange(0, v.len() as int) =~= v@);
    if a == 0 && b == v.len() {
        s
    } else {
        s.substring_char(a, b)
    }
}

/// The tags listed in the span `[lo, hi)` of `v`, the characters of `content`.
fn tag_list_at(content: &str, v: &Vec<char>, lo: usize, hi: usize) -> (tags: Vec<String>)
    requires
        v@ == content@,
        lo <= hi <= v.len(),
    ensures
        texts(tags@) == tag_list(v@.subrange(lo as int, hi as int)),
{
    let mut tags: Vec<String> = Vec::new();
    let mut p: usize = lo;
    let mut done = false;
    assert(texts(tags@) =~= Seq::<Seq<char>>::empty());
    while !done
        invariant
            v@ == content@,
            lo <= p <= hi <= v.len(),
            !done ==> tag_list(v@.subrange(lo as int, hi as int)) == texts(tags@) + tag_list(
                v@.subrange(p as int, hi as int),
            ),
            done ==> tag_list(v@.subrange(lo as int, hi as int)) == texts(tags@),
        decreases
                (if done {
                    0
                } else {
                    hi - p + 1
                }),
    {
        let ghost rest = v@.subrange(p as int, hi as int);
        let ghost before = texts(tags@);
        let q = find_at(v, p, hi, ',');
        let (a, b) = trim_at(v, p, q);
        let (ua, ub) = unquote_at(v, a, b);
        proof {
            assert(rest.take(q - p) =~= v@.subrange(p as int, q as int));
        }
        if ub > ua {
            let item = content.substring_char(ua, ub).to_owned();
            tags.push(item);
            assert(texts(tags@) =~= before + seq![item@]);
        } else {
            assert(texts(tags@) =~= before + Seq::<Seq<char>>::empty());
        }
        if q < hi {
            assert(rest.skip(q - p + 1) =~= v@.subrange(q + 1, hi as int));
            p = q + 1;
        } else {
            done = true;
        }
    }
    tags
}

/// Reads the line in the span `[lo, hi)` of `v`, the characters of
/// `content`, into `fm`.
fn read_line_at(content: &str, v: &Vec<char>, lo: usize, hi: usize, fm: Frontmatter) -> (r:
    Frontmatter)
    requires
        v@ == content@,
        lo <= hi <= v.len(),
    ensures
        r@ == read_line(fm@, v@.subrange(lo as int, hi as int)),
{
    let mut fm = fm;
    let (a, b) = trim_at(v, lo, hi);
    let c = find_at(v, a, b, ':');
    if c < b {
        let ghost t = v@.subrange(a as int, b as int);
        let (ka, kb) = trim_at(v, a, c);
        let (va, vb) = trim_at(v, c + 1, b);
        proof {
            assert(t.take(c - a) =~= v@.subrange(a as int, c as int));
            assert(t.skip(c - a + 1) =~= v@.subrange(c + 1, b as int));
        }
        let ghost val = v@.subrange(va as int, vb as int);
        if span_is(v, ka, kb, "title") {
            let (ua, ub) = unquote_at(v, va, vb);
            fm.title = content.substring_char(ua, ub).to_owned();
        } else if span_is(v, ka, kb, "date") {
            let (ua, ub) = unquote_at(v, va, vb);
            fm.date = content.substring_char(ua, ub).to_owned();
        } else if span_is(v, ka, kb, "tags") {
            if vb > va && v[va] == '[' && v[vb - 1] == ']' {
                assert(val.subrange(1, val.len() - 1) =~= v@.subrange(va + 1, vb - 1));
                fm.tags = tag_list_at(content, v, va + 1, vb - 1);
            }
        }
    }
    fm
}

/// Reads the lines in the span `[lo, hi)` of `v`, the characters of `content`.
fn read_block_at(content: &str, v: &Vec<char>, lo: usize, hi: usize) -> (r: Frontmatter)
    requires
        v@ == content@,
        lo <= hi <= v.len(),
    ensures
        r@ == read_block(no_fields(), v@.subrange(lo as int, hi as int)),
{
    let mut fm = Frontmatter { title: String::new(), date: String::new(), tags: Vec::new() };
    assert(fm@.tags =~= Seq::<Seq<char>>::empty());
    let mut p: usize = lo;
    let mut done = false;
    while !done
        invariant
            v@ == content@,
            lo <= p <= hi <= v.len(),
            !done ==> read_block(no_fields(), v@.subrange(lo as int, hi as int)) == read_block(
                fm@,
                v@.subrange(p as int, hi as int),
            ),
            done ==> read_block(no_fields(), v@.subrange(lo as int, hi as int)) == fm@,
        decreases
                (if done {
                    0
                } else {
                    hi - p + 1
                }),
    {
        let ghost rest = v@.subrange(p as int, hi as int);
        let q = find_at(v, p, hi, '\n');
        proof {
            assert(rest.take(q - p) =~= v@.subrange(p as int, q as int));
        }
        fm = read_line_at(content, v, p, q, fm);
        if q < hi {
            assert(rest.skip(q - p + 1) =~= v@.subrange(q + 1, hi as int));
            p = q + 1;
        } else {
            done = true;
        }
    }
    fm
}

/// Whether `v` starts with the opening marker.
fn starts_block(v: &Vec<char>) -> (r: bool)
    ensures
        r == opens(v@),
{
    v.len() >= 3 && v[0] == '-' && v[1] == '-' && v[2] == '-'
}

/// The first position at or after `from` where the closing marker stands
/// in `v`, or `v.len()`.
fn find_closing(v: &Vec<char>, from: usize) -> (p: usize)
    requires
        from <= v.len(),
    ensures
        from <= p <= v.len(),
        p == closing_from(v@, from as int),
        p < v.len() ==> closes_at(v@, p as int),
{
    let n = v.len();
    let mut p: usize = from;
    while p < n && !(n - p >= 4 && v[p] == '\n' && v[p + 1] == '-' && v[p + 2] == '-' && v[p + 3]
        == '-')
        invariant
            n == v.len(),
            from <= p <= n,
            closing_from(v@, from as int) == closing_from(v@, p as int),
        decreases n - p,
    {
        p = p + 1;
    }
    p
}

/// The span of `v` that the excerpt of the body starting at `lo` is made of.
fn excerpt_at(v: &Vec<char>, lo: usize) -> (r: (usize, usize))
    requires
        lo <= v.len(),
    ensures
        lo <= r.0 <= r.1 <= v.len(),
        v@.subrange(r.0 as int, r.1 as int) == excerpt_of(v@.subrange(lo as int, v.len() as int)),
{
    let n = v.len();
    let ghost body = v@.subrange(lo as int, n as int);
    let mut src: usize = lo;
    if lo < n && v[lo] == '#' {
        let p = find_at(v, lo, n, '\n');
        if p < n {
            src = p + 1;
            assert(body.skip(p - lo + 1) =~= v@.subrange(src as int, n as int));
        } else {
            src = n;
            assert(v@.subrange(n as int, n as int) =~= Seq::<char>::empty());
        }
    }
    assert(excerpt_source(body) == v@.subrange(src as int, n as int));
    let end: usize = if n - src < 300 {
        n
    } else {
        src + 300
    };
    assert(v@.subrange(src as int, n as int).take(end - src) =~= v@.subrange(
        src as int,
        end as int,
    ));
    trim_at(v, src, end)
}

/// Parses the frontmatter of `content` and cuts the excerpt of its body.
/// Returns title, date, tags and excerpt. A document without a
/// frontmatter block has empty fields and is all body.
pub fn parse_frontmatter(content: &str) -> (r: (String, String, Vec<String>, String))
    ensures
        r.0@ == fields_of(content@).title,
        r.1@ == fields_of(content@).date,
        texts(r.2@) == fields_of(content@).tags,
        r.3@ == excerpt_of(body_of(content@)),
        all_filled(texts(r.2@)),
        r.3@.len() <= 300,
{
    proof {
        lemma_document_bounds(content@);
    }
    let v = chars_of(content);
    let n = v.len();
    let mut fm = Frontmatter { title: String::new(), date: String::new(), tags: Vec::new() };
    assert(fm@.tags =~= Seq::<Seq<char>>::empty());
    let mut body: usize = 0;
    assert(v@.subrange(0, n as int) =~= v@);
    if starts_block(&v) {
        let end = find_closing(&v, 3);
        if end < n {
            if end >= 4 {
                fm = read_block_at(content, &v, 4, end);
            } else {
                assert(v@.subrange(end as int, end as int) =~= Seq::<char>::empty());
                fm = read_block_at(content, &v, end, end);
            }
            assert(v@.skip(end + 4) =~= v@.subrange(end + 4, n as int));
            body = trim_start_at(&v, end + 4, n);
        }
    }
    let (a, b) = excerpt_at(&v, body);
    let excerpt = content.substring_char(a, b).to_owned();
    (fm.title, fm.date, fm.tags, excerpt)
}

} // verus!
