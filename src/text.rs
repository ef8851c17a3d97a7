//! Character-level text helpers: whitespace, segmentation into lines and
//! terms, trimming, and the lexical features used by keyword scoring.
use vstd::prelude::*;

verus! {

/// Unicode `White_Space`, the property that `char::is_whitespace` and
/// `str::trim` use.
pub open spec fn is_ws(c: char) -> bool {
    let u = c as u32;
    (0x9 <= u && u <= 0xD) || u == 0x20 || u == 0x85 || u == 0xA0 || u == 0x1680 || (0x2000
        <= u && u <= 0x200A) || u == 0x2028 || u == 0x2029 || u == 0x202F || u == 0x205F || u
        == 0x3000
}

/// Whether `c` is alphabetic or numeric in Unicode's sense, as
/// `char::is_alphanumeric` decides it.
pub uninterp spec fn alnum(c: char) -> bool;

/// `s` in lower case, as `str::to_lowercase` maps it.
pub uninterp spec fn lower_of(s: Seq<char>) -> Seq<char>;

/// `s` cut at every character for which `sep` holds; the separators are
/// dropped and there is always at least one (possibly empty) piece.
pub open spec fn segments(s: Seq<char>, sep: spec_fn(char) -> bool) -> Seq<Seq<char>>
    decreases s.len(),
{
    if s.len() == 0 {
        seq![Seq::empty()]
    } else {
        let p = segments(s.drop_last(), sep);
        if sep(s.last()) {
            p.push(Seq::empty())
        } else {
            p.update(p.len() - 1, p.last().push(s.last()))
        }
    }
}

pub open spec fn newline_sep() -> spec_fn(char) -> bool {
    |c: char| c == '\n'
}

pub open spec fn ws_sep() -> spec_fn(char) -> bool {
    |c: char| is_ws(c)
}

/// A line without the carriage return that ended it.
pub open spec fn strip_cr(l: Seq<char>) -> Seq<char> {
    if l.len() > 0 && l.last() == '\r' {
        l.drop_last()
    } else {
        l
    }
}

/// The lines of `s` as `str::lines` yields them: split at `\n`, a `\r`
/// right before a `\n` removed, no empty line after a final `\n`.
pub open spec fn lines_of(s: Seq<char>) -> Seq<Seq<char>> {
    let p = segments(s, newline_sep());
    let body = p.drop_last().map_values(|l: Seq<char>| strip_cr(l));
    if p.last().len() == 0 {
        body
    } else {
        body.push(p.last())
    }
}

/// The characters of a word that are kept as a lexical term.
pub open spec fn keep_alnum(w: Seq<char>) -> Seq<char> {
    w.filter(|c: char| alnum(c))
}

pub open spec fn non_empty(t: Seq<char>) -> bool {
    t.len() > 0
}

/// Split at whitespace, keep the alphanumeric characters of each word, drop
/// what is left empty.
pub open spec fn terms_of(s: Seq<char>) -> Seq<Seq<char>> {
    segments(s, ws_sep()).map_values(|w: Seq<char>| keep_alnum(w)).filter(
        |t: Seq<char>| non_empty(t),
    )
}

/// The closed English stop-word list.
pub open spec fn stop_words() -> Seq<Seq<char>> {
    seq![
        "a"@, "an"@, "the"@, "and"@, "or"@, "but"@, "if"@, "then"@, "else"@, "when"@, "at"@,
        "from"@, "by"@, "for"@, "with"@, "about"@, "against"@, "between"@, "into"@, "through"@,
        "during"@, "before"@, "after"@, "above"@, "below"@, "to"@, "up"@, "down"@, "in"@,
        "out"@, "on"@, "off"@, "over"@, "under"@, "again"@, "further"@, "once"@, "here"@,
        "there"@, "where"@, "why"@, "how"@, "all"@, "any"@, "both"@, "each"@, "few"@, "more"@,
        "most"@, "other"@, "some"@, "such"@, "no"@, "nor"@, "not"@, "only"@, "own"@, "same"@,
        "so"@, "than"@, "too"@, "very"@, "s"@, "t"@, "can"@, "will"@, "just"@, "don"@,
        "should"@, "now"@, "are"@, "is"@, "was"@, "were"@, "have"@, "has"@, "had"@,
    ]
}

pub open spec fn is_stop_word(t: Seq<char>) -> bool {
    stop_words().contains(t)
}

pub open spec fn not_stop_word(t: Seq<char>) -> bool {
    !is_stop_word(t)
}

/// The terms of a query: lower-cased terms that are no stop words.
pub open spec fn query_terms(q: Seq<char>) -> Seq<Seq<char>> {
    terms_of(lower_of(q)).filter(|t: Seq<char>| not_stop_word(t))
}

/// The terms of a chunk: lower-cased terms, stop words included. Words
/// without alphanumerics leave no term; since no query term is empty, this
/// changes no match.
pub open spec fn chunk_terms(c: Seq<char>) -> Seq<Seq<char>> {
    terms_of(lower_of(c))
}

/// How many of the query terms (counted with repetition) occur among the
/// chunk terms.
pub open spec fn match_count(qs: Seq<Seq<char>>, cs: Seq<Seq<char>>) -> nat {
    qs.filter(|t: Seq<char>| cs.contains(t)).len()
}

/// Whether every character of `s` is whitespace (`s.trim()` is empty).
pub open spec fn is_blank(s: Seq<char>) -> bool {
    forall|i: int| 0 <= i < s.len() ==> is_ws(s[i])
}

pub open spec fn trim_start(s: Seq<char>) -> Seq<char>
    decreases s.len(),
{
    if s.len() > 0 && is_ws(s[0]) {
        trim_start(s.drop_first())
    } else {
        s
    }
}

pub open spec fn trim_end(s: Seq<char>) -> Seq<char>
    decreases s.len(),
{
    if s.len() > 0 && is_ws(s.last()) {
        trim_end(s.drop_last())
    } else {
        s
    }
}

/// `s` without leading and trailing whitespace, as `str::trim` gives it.
pub open spec fn trim(s: Seq<char>) -> Seq<char> {
    trim_end(trim_start(s))
}

/// A trimmed text that is one bare URL: it starts with `http` and holds no
/// whitespace.
pub open spec fn is_bare_url(s: Seq<char>) -> bool {
    let t = trim(s);
    &&& t.len() >= 4
    &&& t.take(4) == seq!['h', 't', 't', 'p']
    &&& forall|i: int| 0 <= i < t.len() ==> !is_ws(#[trigger] t[i])
}

/// Number of bytes that `c` takes in UTF-8.
pub open spec fn utf8_width(c: char) -> nat {
    let u = c as u32;
    if u < 0x80 {
        1
    } else if u < 0x800 {
        2
    } else if u < 0x10000 {
        3
    } else {
        4
    }
}

/// Number of bytes that `s` takes in UTF-8 (`str::len`).
pub open spec fn utf8_len(s: Seq<char>) -> nat
    decreases s.len(),
{
    if s.len() == 0 {
        0
    } else {
        utf8_len(s.drop_last()) + utf8_width(s.last())
    }
}

pub open spec fn views(v: Seq<String>) -> Seq<Seq<char>> {
    v.map_values(|s: String| s@)
}

pub proof fn lemma_filter_push<A>(s: Seq<A>, x: A, p: spec_fn(A) -> bool)
    ensures
        s.push(x).filter(p) == (if p(x) {
            s.filter(p).push(x)
        } else {
            s.filter(p)
        }),
{
    reveal(Seq::filter);
    assert(s.push(x).drop_last() =~= s);
}

pub proof fn lemma_filter_empty<A>(s: Seq<A>, p: spec_fn(A) -> bool)
    requires
        s.len() == 0,
    ensures
        s.filter(p) == s,
{
    reveal(Seq::filter);
}

/// One step of `segments`: how the pieces grow by one character.
pub proof fn lemma_segments_step(
    s: Seq<char>,
    i: int,
    sep: spec_fn(char) -> bool,
    done: Seq<Seq<char>>,
    cur: Seq<char>,
)
    requires
        0 <= i < s.len(),
        segments(s.take(i), sep) == done.push(cur),
    ensures
        segments(s.take(i + 1), sep) == (if sep(s[i]) {
            done.push(cur).push(Seq::empty())
        } else {
            done.push(cur.push(s[i]))
        }),
{
    assert(s.take(i + 1).drop_last() =~= s.take(i));
    if !sep(s[i]) {
        assert(done.push(cur).update(done.len() as int, cur.push(s[i])) =~= done.push(
            cur.push(s[i]),
        ));
    }
}

/// Relies on `char::is_alphanumeric`.
#[verifier::external_body]
fn is_alnum_char(c: char) -> (r: bool)
    ensures
        r == alnum(c),
{
    c.is_alphanumeric()
}

/// Relies on `str::to_lowercase`: the result depends on the characters alone.
#[verifier::external_body]
fn lowercase(s: &str) -> (r: String)
    ensures
        r@ == lower_of(s@),
{
    s.to_lowercase()
}

/// Relies on collecting characters into a `String` (`FromIterator<&char>`).
#[verifier::external_body]
pub(crate) fn string_of(v: &[char]) -> (r: String)
    ensures
        r@ == v@,
{
    v.iter().collect()
}

pub fn is_whitespace_char(c: char) -> (r: bool)
    ensures
        r == is_ws(c),
{
    let u = c as u32;
    (0x9 <= u && u <= 0xD) || u == 0x20 || u == 0x85 || u == 0xA0 || u == 0x1680 || (0x2000
        <= u && u <= 0x200A) || u == 0x2028 || u == 0x2029 || u == 0x202F || u == 0x205F || u
        == 0x3000
}

/// The characters of `s`, in order.
pub fn chars_of(s: &str) -> (r: Vec<char>)
    ensures
        r@ == s@,
{
    let mut r: Vec<char> = Vec::new();
    for c in it: s.chars()
        invariant
            r@ == it.seq().take(it.index() as int),
            it.seq() == s@,
    {
        r.push(c);
    }
    r
}

/// The lines of `text`, as `str::lines` splits it.
pub fn split_lines(text: &str) -> (r: Vec<String>)
    ensures
        views(r@) == lines_of(text@),
{
    let cs = chars_of(text);
    let mut done: Vec<String> = Vec::new();
    let mut cur: Vec<char> = Vec::new();
    let mut i: usize = 0;
    proof {
        assert(cs@.take(0) =~= Seq::<char>::empty());
        assert(Seq::<Seq<char>>::empty().push(Seq::<char>::empty()) =~= seq![Seq::<char>::empty()]);
    }
    while i < cs.len()
        invariant
            i <= cs.len(),
            segments(cs@.take(i as int), newline_sep()).drop_last().map_values(|l: Seq<char>| strip_cr(l))
                == views(done@),
            segments(cs@.take(i as int), newline_sep()).last() == cur@,
            segments(cs@.take(i as int), newline_sep()).len() >= 1,
        decreases cs.len() - i,
    {
        let ghost segs = segments(cs@.take(i as int), newline_sep());
        proof {
            assert(segs =~= segs.drop_last().push(cur@));
            lemma_segments_step(cs@, i as int, newline_sep(), segs.drop_last(), cur@);
        }
        let c = cs[i];
        if c == '\n' {
            let ghost whole = cur@;
            let n = cur.len();
            if n > 0 && cur[n - 1] == '\r' {
                cur.pop();
            }
            let line = string_of(cur.as_slice());
            assert(line@ == strip_cr(whole));
            let ghost old_done = done@;
            done.push(line);
            cur = Vec::new();
            proof {
                let nsegs = segs.push(Seq::empty());
                assert(nsegs.drop_last() =~= segs);
                assert(nsegs.last() =~= cur@);
                assert(views(done@) =~= views(old_done).push(strip_cr(segs.last())));
                assert(segs.map_values(|l: Seq<char>| strip_cr(l)) =~= segs.drop_last().map_values(
                    |l: Seq<char>| strip_cr(l),
                ).push(strip_cr(segs.last())));
                assert(nsegs.drop_last().map_values(|l: Seq<char>| strip_cr(l)) == views(done@));
                assert(segments(cs@.take(i + 1), newline_sep()) == nsegs);
            }
        } else {
            cur.push(c);
            proof {
                let nsegs = segs.drop_last().push(cur@);
                assert(nsegs.drop_last() =~= segs.drop_last());
                assert(nsegs.last() == cur@);
                assert(segments(cs@.take(i + 1), newline_sep()) == nsegs);
            }
        }
        i = i + 1;
    }
    proof {
        assert(cs@.take(cs.len() as int) =~= text@);
    }
    if cur.len() > 0 {
        let last = string_of(cur.as_slice());
        done.push(last);
        proof {
            assert(views(done@) =~= views(done@).drop_last().push(last@));
        }
    }
    done
}

/// The lexical terms of `text` (see `terms_of`), lower-cased first.
pub fn lower_terms(text: &str) -> (r: Vec<String>)
    ensures
        views(r@) == terms_of(lower_of(text@)),
{
    let lower = lowercase(text);
    let cs = chars_of(lower.as_str());
    let mut done: Vec<String> = Vec::new();
    let mut cur: Vec<char> = Vec::new();
    let ghost mut raw: Seq<char> = Seq::empty();
    let mut i: usize = 0;
    proof {
        assert(cs@.take(0) =~= Seq::<char>::empty());
        assert(Seq::<Seq<char>>::empty().push(Seq::<char>::empty()) =~= seq![Seq::<char>::empty()]);
        lemma_filter_empty(raw, |c: char| alnum(c));
        lemma_filter_empty(Seq::<Seq<char>>::empty(), |t: Seq<char>| non_empty(t));
    }
    while i < cs.len()
        invariant
            i <= cs.len(),
            segments(cs@.take(i as int), ws_sep()).drop_last().map_values(
                |w: Seq<char>| keep_alnum(w),
            ).filter(|t: Seq<char>| non_empty(t)) == views(done@),
            segments(cs@.take(i as int), ws_sep()).last() == raw,
            segments(cs@.take(i as int), ws_sep()).len() >= 1,
            cur@ == keep_alnum(raw),
        decreases cs.len() - i,
    {
        let ghost segs = segments(cs@.take(i as int), ws_sep());
        proof {
            assert(segs =~= segs.drop_last().push(raw));
            lemma_segments_step(cs@, i as int, ws_sep(), segs.drop_last(), raw);
        }
        let c = cs[i];
        if is_whitespace_char(c) {
            let ghost old_done = done@;
            proof {
                let m = segs.drop_last().map_values(|w: Seq<char>| keep_alnum(w));
                assert(segs.map_values(|w: Seq<char>| keep_alnum(w)) =~= m.push(keep_alnum(raw)));
                lemma_filter_push(m, keep_alnum(raw), |t: Seq<char>| non_empty(t));
            }
            if cur.len() > 0 {
                let t = string_of(cur.as_slice());
                done.push(t);
                proof {
                    assert(views(done@) =~= views(old_done).push(t@));
                }
            }
            cur = Vec::new();
            proof {
                raw = Seq::empty();
                lemma_filter_empty(raw, |c: char| alnum(c));
                let nsegs = segs.push(Seq::empty());
                assert(nsegs.drop_last() =~= segs);
            }
        } else {
            proof {
                lemma_filter_push(raw, c, |c: char| alnum(c));
            }
            if is_alnum_char(c) {
                cur.push(c);
            }
            proof {
                let nsegs = segs.drop_last().push(raw.push(c));
                assert(nsegs.drop_last() =~= segs.drop_last());
                raw = raw.push(c);
            }
        }
        i = i + 1;
    }
    proof {
        assert(cs@.take(cs.len() as int) =~= lower@);
        let segs = segments(lower@, ws_sep());
        let m = segs.drop_last().map_values(|w: Seq<char>| keep_alnum(w));
        assert(segs =~= segs.drop_last().push(raw));
        assert(segs.map_values(|w: Seq<char>| keep_alnum(w)) =~= m.push(keep_alnum(raw)));
        lemma_filter_push(m, keep_alnum(raw), |t: Seq<char>| non_empty(t));
    }
    if cur.len() > 0 {
        let ghost old_done = done@;
        let t = string_of(cur.as_slice());
        done.push(t);
        proof {
            assert(views(done@) =~= views(old_done).push(t@));
        }
    }
    done
}

/// The stop words, as strings.
fn stop_word_list() -> (r: Vec<String>)
    ensures
        views(r@) == stop_words(),
{
    let words: [&str; 77] = [
        "a", "an", "the", "and", "or", "but", "if", "then", "else", "when", "at", "from", "by",
        "for", "with", "about", "against", "between", "into", "through", "during", "before",
        "after", "above", "below", "to", "up", "down", "in", "out", "on", "off", "over", "under",
        "again", "further", "once", "here", "there", "where", "why", "how", "all", "any", "both",
        "each", "few", "more", "most", "other", "some", "such", "no", "nor", "not", "only", "own",
        "same", "so", "than", "too", "very", "s", "t", "can", "will", "just", "don", "should",
        "now", "are", "is", "was", "were", "have", "has", "had",
    ];
    let ghost ws = words@.map_values(|w: &str| w@);
    assert(ws =~= stop_words());
    let mut r: Vec<String> = Vec::new();
    let mut i: usize = 0;
    while i < 77
        invariant
            i <= 77,
            words@.len() == 77,
            ws == words@.map_values(|w: &str| w@),
            views(r@) == ws.take(i as int),
        decreases 77 - i,
    {
        let ghost old_r = r@;
        r.push(String::from_str(words[i]));
        proof {
            assert(views(r@) =~= views(old_r).push(words@[i as int]@));
            assert(ws.take(i + 1) =~= ws.take(i as int).push(ws[i as int]));
        }
        i = i + 1;
    }
    assert(ws.take(77) =~= ws);
    r
}

/// Whether some element of `v` equals `t`.
pub fn contains_string(v: &Vec<String>, t: &String) -> (r: bool)
    ensures
        r == views(v@).contains(t@),
{
    let mut i: usize = 0;
    while i < v.len()
        invariant
            i <= v.len(),
            forall|j: int| 0 <= j < i ==> v@[j]@ != t@,
        decreases v.len() - i,
    {
        if v[i] == *t {
            assert(views(v@)[i as int] == t@);
            return true;
        }
        i = i + 1;
    }
    proof {
        if views(v@).contains(t@) {
            let j = choose|j: int| 0 <= j < views(v@).len() && views(v@)[j] == t@;
            assert(v@[j]@ == t@);
        }
    }
    false
}

/// The terms of a query: lower-cased, alphanumeric, stop words removed.
pub fn query_term_list(query: &str) -> (r: Vec<String>)
    ensures
        views(r@) == query_terms(query@),
{
    let all = lower_terms(query);
    let stops = stop_word_list();
    let mut r: Vec<String> = Vec::new();
    let mut i: usize = 0;
    proof {
        lemma_filter_empty(views(all@).take(0), |t: Seq<char>| not_stop_word(t));
        assert(views(r@) =~= views(all@).take(0));
    }
    while i < all.len()
        invariant
            i <= all.len(),
            views(stops@) == stop_words(),
            views(r@) == views(all@).take(i as int).filter(|t: Seq<char>| not_stop_word(t)),
        decreases all.len() - i,
    {
        proof {
            assert(views(all@).take(i + 1) =~= views(all@).take(i as int).push(all@[i as int]@));
            lemma_filter_push(
                views(all@).take(i as int),
                all@[i as int]@,
                |t: Seq<char>| not_stop_word(t),
            );
        }
        let ghost old_r = r@;
        if !contains_string(&stops, &all[i]) {
            let t = all[i].clone();
            r.push(t);
            proof {
                assert(views(r@) =~= views(old_r).push(all@[i as int]@));
            }
        }
        i = i + 1;
    }
    assert(views(all@).take(all.len() as int) =~= views(all@));
    r
}

/// How many of `query` (counted with repetition) occur in `terms`.
pub fn count_matches(query: &Vec<String>, terms: &Vec<String>) -> (r: usize)
    ensures
        r == match_count(views(query@), views(terms@)),
{
    let ghost cs = views(terms@);
    let mut n: usize = 0;
    let mut i: usize = 0;
    proof {
        lemma_filter_empty(views(query@).take(0), |t: Seq<char>| cs.contains(t));
    }
    while i < query.len()
        invariant
            i <= query.len(),
            cs == views(terms@),
            n == views(query@).take(i as int).filter(|t: Seq<char>| cs.contains(t)).len(),
            n <= i,
        decreases query.len() - i,
    {
        proof {
            assert(views(query@).take(i + 1) =~= views(query@).take(i as int).push(
                query@[i as int]@,
            ));
            lemma_filter_push(
                views(query@).take(i as int),
                query@[i as int]@,
                |t: Seq<char>| cs.contains(t),
            );
        }
        if contains_string(terms, &query[i]) {
            n = n + 1;
        }
        i = i + 1;
    }
    assert(views(query@).take(query.len() as int) =~= views(query@));
    n
}

/// A keyword fraction `matches / total` below one percent (zero when there
/// are no query terms).
pub open spec fn keyword_below_one_percent(matches: nat, total: nat) -> bool {
    total == 0 || 100 * matches < total
}

/// The lexical facts that scoring needs of one chunk.
pub struct KeywordFeatures {
    /// Query terms found among the chunk's terms.
    pub matches: usize,
    /// Number of query terms.
    pub query_terms: usize,
    /// Short chunk (under 20 bytes) with a keyword fraction under one percent.
    pub short_penalty: bool,
    /// The trimmed content is a bare URL.
    pub url_penalty: bool,
}

pub proof fn lemma_utf8_len_prefix(s: Seq<char>, i: int)
    requires
        0 <= i <= s.len(),
    ensures
        utf8_len(s.take(i)) <= utf8_len(s),
    decreases s.len() - i,
{
    if i < s.len() {
        assert(s.take(i + 1).drop_last() =~= s.take(i));
        lemma_utf8_len_prefix(s, i + 1);
    } else {
        assert(s.take(i) =~= s);
    }
}

/// Whether `s` takes fewer than `limit` bytes in UTF-8.
pub fn utf8_len_below(s: &Vec<char>, limit: usize) -> (r: bool)
    ensures
        r == (utf8_len(s@) < limit),
{
    if limit == 0 {
        return false;
    }
    let mut n: usize = 0;
    let mut i: usize = 0;
    assert(s@.take(0) =~= Seq::<char>::empty());
    while i < s.len()
        invariant
            i <= s.len(),
            n == utf8_len(s@.take(i as int)),
            n < limit,
        decreases s.len() - i,
    {
        assert(s@.take(i + 1).drop_last() =~= s@.take(i as int));
        let u = s[i] as u32;
        assert(u == s@[i as int] as u32);
        let w: usize = if u < 0x80 {
            1
        } else if u < 0x800 {
            2
        } else if u < 0x10000 {
            3
        } else {
            4
        };
        if w >= limit - n {
            proof {
                lemma_utf8_len_prefix(s@, i + 1);
            }
            return false;
        }
        n = n + w;
        i = i + 1;
    }
    assert(s@.take(i as int) =~= s@);
    true
}

/// Whether every character of `s` is whitespace.
pub fn blank(s: &str) -> (r: bool)
    ensures
        r == is_blank(s@),
{
    let cs = chars_of(s);
    let mut i: usize = 0;
    while i < cs.len()
        invariant
            i <= cs.len(),
            cs@ == s@,
            forall|j: int| 0 <= j < i ==> is_ws(cs@[j]),
        decreases cs.len() - i,
    {
        if !is_whitespace_char(cs[i]) {
            return false;
        }
        i = i + 1;
    }
    true
}

/// The bounds of `trim(s)` within `s`.
pub fn trim_bounds(s: &Vec<char>) -> (r: (usize, usize))
    ensures
        r.0 <= r.1 <= s.len(),
        trim(s@) == s@.subrange(r.0 as int, r.1 as int),
{
    let n = s.len();
    let mut a: usize = 0;
    assert(s@.subrange(0, n as int) =~= s@);
    while a < n && is_whitespace_char(s[a])
        invariant
            a <= n == s.len(),
            trim_start(s@) == trim_start(s@.subrange(a as int, n as int)),
        decreases n - a,
    {
        assert(s@.subrange(a as int, n as int).drop_first() =~= s@.subrange(a + 1, n as int));
        a = a + 1;
    }
    let mut b: usize = n;
    while b > a && is_whitespace_char(s[b - 1])
        invariant
            a <= b <= n == s.len(),
            trim_end(s@.subrange(a as int, n as int)) == trim_end(
                s@.subrange(a as int, b as int),
            ),
        decreases b - a,
    {
        assert(s@.subrange(a as int, b as int).drop_last() =~= s@.subrange(
            a as int,
            b - 1,
        ));
        b = b - 1;
    }
    (a, b)
}

/// Whether `content`, trimmed, is one bare URL.
pub fn bare_url(content: &str) -> (r: bool)
    ensures
        r == is_bare_url(content@),
{
    let cs = chars_of(content);
    let (a, b) = trim_bounds(&cs);
    let ghost t = cs@.subrange(a as int, b as int);
    if b - a < 4 {
        return false;
    }
    if !(cs[a] == 'h' && cs[a + 1] == 't' && cs[a + 2] == 't' && cs[a + 3] == 'p') {
        proof {
            if t.take(4) == seq!['h', 't', 't', 'p'] {
                assert(t.take(4)[0] == t[0]);
                assert(t.take(4)[1] == t[1]);
                assert(t.take(4)[2] == t[2]);
                assert(t.take(4)[3] == t[3]);
            }
        }
        return false;
    }
    assert(t.take(4) =~= seq!['h', 't', 't', 'p']);
    let mut i: usize = a;
    while i < b
        invariant
            a <= i <= b <= cs.len(),
            t == cs@.subrange(a as int, b as int),
            t == trim(content@),
            cs@ == content@,
            forall|j: int| 0 <= j < i - a ==> !is_ws(#[trigger] t[j]),
        decreases b - i,
    {
        if is_whitespace_char(cs[i]) {
            assert(t[i - a] == cs@[i as int]);
            return false;
        }
        i = i + 1;
    }
    true
}

/// The lexical features of a chunk whose text is `content`, for a query
/// whose terms are `query`.
pub fn keyword_features(query: &Vec<String>, content: &str) -> (r: KeywordFeatures)
    ensures
        r.matches == match_count(views(query@), chunk_terms(content@)),
        r.query_terms == query.len(),
        r.short_penalty == (utf8_len(content@) < 20 && keyword_below_one_percent(
            r.matches as nat,
            r.query_terms as nat,
        )),
        r.url_penalty == is_bare_url(content@),
{
    let terms = lower_terms(content);
    let matches = count_matches(query, &terms);
    proof {
        reveal(Seq::filter);
        views(query@).lemma_filter_len(|t: Seq<char>| views(terms@).contains(t));
    }
    let total = query.len();
    let cs = chars_of(content);
    let short = utf8_len_below(&cs, 20);
    let low = total == 0 || (matches <= total / 100 && 100 * matches < total);
    KeywordFeatures {
        matches,
        query_terms: total,
        short_penalty: short && low,
        url_penalty: bare_url(content),
    }
}

pub proof fn lemma_filter_none<A>(s: Seq<A>, p: spec_fn(A) -> bool)
    requires
        forall|i: int| 0 <= i < s.len() ==> !p(#[trigger] s[i]),
    ensures
        s.filter(p).len() == 0,
    decreases s.len(),
{
    if s.len() == 0 {
        lemma_filter_empty(s, p);
    } else {
        lemma_filter_none(s.drop_last(), p);
        assert(s.drop_last().push(s.last()) =~= s);
        lemma_filter_push(s.drop_last(), s.last(), p);
    }
}

pub proof fn lemma_filter_all<A>(s: Seq<A>, p: spec_fn(A) -> bool)
    requires
        forall|i: int| 0 <= i < s.len() ==> p(#[trigger] s[i]),
    ensures
        s.filter(p) == s,
    decreases s.len(),
{
    if s.len() == 0 {
        lemma_filter_empty(s, p);
    } else {
        lemma_filter_all(s.drop_last(), p);
        assert(s.drop_last().push(s.last()) =~= s);
        lemma_filter_push(s.drop_last(), s.last(), p);
    }
}

/// What a filter keeps comes from the filtered sequence.
pub proof fn lemma_filter_within<A>(s: Seq<A>, p: spec_fn(A) -> bool)
    ensures
        forall|i: int| 0 <= i < s.filter(p).len() ==> s.contains(#[trigger] s.filter(p)[i]),
    decreases s.len(),
{
    if s.len() == 0 {
        lemma_filter_empty(s, p);
    } else {
        let d = s.drop_last();
        lemma_filter_within(d, p);
        assert(d.push(s.last()) =~= s);
        lemma_filter_push(d, s.last(), p);
        assert forall|i: int| 0 <= i < s.filter(p).len() implies s.contains(#[trigger] s.filter(p)[i]) by {
            if i < d.filter(p).len() {
                assert(s.filter(p)[i] == d.filter(p)[i]);
                let j = choose|j: int| 0 <= j < d.len() && d[j] == d.filter(p)[i];
                assert(s[j] == d[j]);
            } else {
                assert(s[s.len() - 1] == s.last());
            }
        }
    }
}

/// A query whose words are all stop words has no terms, so no chunk gets
/// keyword credit for it.
pub proof fn lemma_stop_words_only(q: Seq<char>, content: Seq<char>)
    requires
        forall|i: int|
            0 <= i < terms_of(lower_of(q)).len() ==> is_stop_word(#[trigger] terms_of(lower_of(q))[i]),
    ensures
        query_terms(q).len() == 0,
        match_count(query_terms(q), chunk_terms(content)) == 0,
{
    lemma_filter_none(terms_of(lower_of(q)), |t: Seq<char>| not_stop_word(t));
    let qs = query_terms(q);
    let cs = chunk_terms(content);
    lemma_filter_empty(qs, |t: Seq<char>| cs.contains(t));
}

/// Every term of a query occurs among the terms of a chunk whose text is
/// the query itself: the keyword fraction is one.
pub proof fn lemma_query_matches_itself(q: Seq<char>)
    ensures
        match_count(query_terms(q), chunk_terms(q)) == query_terms(q).len(),
{
    let all = terms_of(lower_of(q));
    let qs = query_terms(q);
    lemma_filter_within(all, |t: Seq<char>| not_stop_word(t));
    lemma_filter_all(qs, |t: Seq<char>| all.contains(t));
}

} // verus!
