//! Character-sequence utilities on which the parsers are built.
//!
//! Text is modelled as a sequence of `char` (the view of `str` and
//! `String`).  Searching, trimming and splitting are written here and
//! verified against short recursive definitions; the case conversions and
//! the lossy UTF-8 decoding of std are reached through trusted wrappers
//! whose results are named.

use vstd::prelude::*;

verus! {

broadcast use vstd::string::group_string_axioms;

// ---------------------------------------------------------------------------
// Searching
// ---------------------------------------------------------------------------

/// First position at or after `i` at which `needle` occurs in `hay`.
pub open spec fn find_from<T>(hay: Seq<T>, needle: Seq<T>, i: int) -> Option<int>
    decreases hay.len() - i,
{
    if i < 0 || i + needle.len() > hay.len() {
        None
    } else if needle.len() == 0 || hay.subrange(i, i + needle.len()) == needle {
        Some(i)
    } else {
        find_from(hay, needle, i + 1)
    }
}

/// First position at which `needle` occurs in `hay` (the `str::find` of
/// std, counted in characters).
pub open spec fn find<T>(hay: Seq<T>, needle: Seq<T>) -> Option<int> {
    find_from(hay, needle, 0)
}

/// `needle` occurs somewhere in `hay`.
pub open spec fn contains_seq<T>(hay: Seq<T>, needle: Seq<T>) -> bool {
    find(hay, needle) is Some
}

/// `s` begins with `p`.
pub open spec fn starts_with<T>(s: Seq<T>, p: Seq<T>) -> bool {
    p.len() <= s.len() && s.subrange(0, p.len() as int) == p
}

/// An optional index, widened to `int`.
pub open spec fn opt_int(r: Option<usize>) -> Option<int> {
    match r {
        Some(i) => Some(i as int),
        None => None,
    }
}

/// What a successful search returns: an occurrence, preceded by none.
pub proof fn lemma_find_from<T>(hay: Seq<T>, needle: Seq<T>, i: int)
    requires
        0 <= i,
    ensures
        find_from(hay, needle, i) matches Some(k) ==> {
            &&& i <= k
            &&& k + needle.len() <= hay.len()
            &&& hay.subrange(k, k + needle.len()) == needle
            &&& forall|m: int|
                i <= m < k ==> #[trigger] hay.subrange(m, m + needle.len()) != needle
        },
        find_from(hay, needle, i) is None ==> forall|m: int|
            i <= m && m + needle.len() <= hay.len() ==> #[trigger] hay.subrange(
                m,
                m + needle.len(),
            ) != needle,
    decreases hay.len() - i,
{
    if i + needle.len() > hay.len() {
    } else if needle.len() == 0 || hay.subrange(i, i + needle.len()) == needle {
        if needle.len() == 0 {
            assert(hay.subrange(i, i) =~= needle);
        }
    } else {
        lemma_find_from(hay, needle, i + 1);
    }
}

/// Whether `needle` occurs in `hay` at position `i`.
pub fn matches_at(hay: &[char], needle: &[char], i: usize) -> (r: bool)
    requires
        i + needle@.len() <= hay@.len(),
    ensures
        r == (hay@.subrange(i as int, i + needle@.len()) == needle@),
{
    let mut j: usize = 0;
    while j < needle.len()
        invariant
            i + needle@.len() <= hay@.len(),
            j <= needle@.len(),
            forall|k: int| 0 <= k < j ==> hay@[i + k] == needle@[k],
        decreases needle@.len() - j,
    {
        assert(i + j < hay.len());
        if hay[i + j] != needle[j] {
            assert(hay@.subrange(i as int, i + needle@.len())[j as int] != needle@[j as int]);
            return false;
        }
        j += 1;
    }
    assert(hay@.subrange(i as int, i + needle@.len()) =~= needle@);
    true
}

/// First position at which `needle` occurs in `hay`.
pub fn find_chars(hay: &[char], needle: &[char]) -> (r: Option<usize>)
    ensures
        opt_int(r) == find(hay@, needle@),
{
    let mut i: usize = 0;
    while i <= hay.len() && needle.len() <= hay.len() - i
        invariant
            i <= hay@.len() + 1,
            find_from(hay@, needle@, 0) == find_from(hay@, needle@, i as int),
        decreases hay@.len() + 1 - i,
    {
        if needle.len() == 0 || matches_at(hay, needle, i) {
            return Some(i);
        }
        i += 1;
    }
    None
}

/// Whether `needle` occurs in `hay`.
pub fn contains_chars(hay: &[char], needle: &[char]) -> (r: bool)
    ensures
        r == contains_seq(hay@, needle@),
{
    find_chars(hay, needle).is_some()
}

/// Whether `a` and `b` hold the same characters.
pub fn chars_eq(a: &[char], b: &[char]) -> (r: bool)
    ensures
        r == (a@ == b@),
{
    if a.len() != b.len() {
        return false;
    }
    let r = matches_at(a, b, 0);
    assert(a@.subrange(0, b@.len() as int) =~= a@);
    r
}

/// Whether `s` begins with `p`.
pub fn starts_with_chars(s: &[char], p: &[char]) -> (r: bool)
    ensures
        r == starts_with(s@, p@),
{
    if p.len() > s.len() {
        return false;
    }
    let r = matches_at(s, p, 0);
    r
}

// ---------------------------------------------------------------------------
// Conversions
// ---------------------------------------------------------------------------

/// The characters of `s`, in order.
pub fn chars_of(s: &str) -> (v: Vec<char>)
    ensures
        v@ == s@,
{
    let mut v: Vec<char> = Vec::new();
    for c in it: s.chars()
        invariant
            v@ == it.seq().take(it.index() as int),
            it.seq() == s@,
    {
        v.push(c);
        assert(v@ =~= it.seq().take(it.index() + 1));
    }
    assert(v@ =~= s@);
    v
}

/// Collects characters into a `String` (std's `FromIterator<char>` for
/// `String`); the string holds exactly those characters, in order.
#[verifier::external_body]
pub fn string_from_chars(cs: &[char]) -> (r: String)
    ensures
        r@ == cs@,
{
    cs.iter().collect::<String>()
}

/// Appends the characters of `s` to `out`.
pub fn push_str(out: &mut Vec<char>, s: &str)
    ensures
        final(out)@ == old(out)@ + s@,
{
    for c in it: s.chars()
        invariant
            out@ == old(out)@ + it.seq().take(it.index() as int),
            it.seq() == s@,
    {
        out.push(c);
        assert(out@ =~= old(out)@ + it.seq().take(it.index() + 1));
    }
    assert(s@.take(s@.len() as int) =~= s@);
}

/// The views of a list of strings.
pub open spec fn views(v: Seq<String>) -> Seq<Seq<char>> {
    v.map_values(|s: String| s@)
}

/// Pushing a string pushes its view.
pub proof fn lemma_views_push(v: Seq<String>, x: String)
    ensures
        views(v.push(x)) == views(v).push(x@),
{
    assert(views(v.push(x)) =~= views(v).push(x@));
}

/// Every character is ASCII.
pub open spec fn is_ascii_text(s: Seq<char>) -> bool {
    forall|i: int| 0 <= i < s.len() ==> (#[trigger] s[i]) as u32 <= 0x7f
}

/// `c` with A-Z mapped to a-z.
pub open spec fn ascii_lower(c: char) -> char {
    if 65 <= c as u32 <= 90 {
        ((c as u32) + 32) as char
    } else {
        c
    }
}

/// `c` with a-z mapped to A-Z.
pub open spec fn ascii_upper(c: char) -> char {
    if 97 <= c as u32 <= 122 {
        ((c as u32) - 32) as char
    } else {
        c
    }
}

/// What `str::to_lowercase` of std returns for the given characters.
pub uninterp spec fn lowercase_of(s: Seq<char>) -> Seq<char>;

/// Calls `str::to_lowercase`; the result is the name `lowercase_of` of the
/// argument.  For ASCII text the Unicode lower-case mapping is the ASCII
/// one: A-Z become a-z and nothing else changes.  What it does to other
/// characters is not stated.
#[verifier::external_body]
pub fn to_lowercase(s: &str) -> (r: String)
    ensures
        r@ == lowercase_of(s@),
        is_ascii_text(s@) ==> r@ == s@.map_values(|c: char| ascii_lower(c)),
{
    s.to_lowercase()
}

/// What `str::to_uppercase` of std returns for the given characters.
pub uninterp spec fn uppercase_of(s: Seq<char>) -> Seq<char>;

/// Calls `str::to_uppercase`; the result is the name `uppercase_of` of the
/// argument.  For ASCII text the Unicode upper-case mapping is the ASCII
/// one: a-z become A-Z and nothing else changes.  What it does to other
/// characters is not stated.
#[verifier::external_body]
pub fn to_uppercase(s: &str) -> (r: String)
    ensures
        r@ == uppercase_of(s@),
        is_ascii_text(s@) ==> r@ == s@.map_values(|c: char| ascii_upper(c)),
{
    s.to_uppercase()
}

/// What `String::from_utf8_lossy` of std decodes from the given bytes.
pub uninterp spec fn lossy_utf8(b: Seq<u8>) -> Seq<char>;

/// Calls `String::from_utf8_lossy` and takes the result as an owned string;
/// the result is the name `lossy_utf8` of the bytes.  Bytes that are all
/// ASCII are valid UTF-8 and decode to one character each; which
/// replacement characters it inserts for invalid input is not stated.
#[verifier::external_body]
pub fn decode_lossy(b: &[u8]) -> (r: String)
    ensures
        r@ == lossy_utf8(b@),
        (forall|i: int| 0 <= i < b@.len() ==> #[trigger] b@[i] <= 0x7f) ==> r@ == b@.map_values(
            |x: u8| x as char,
        ),
{
    String::from_utf8_lossy(b).into_owned()
}


// ---------------------------------------------------------------------------
// Whitespace, trimming and splitting
// ---------------------------------------------------------------------------

/// The characters with the Unicode `White_Space` property, which is what
/// `char::is_whitespace` of std tests.
pub open spec fn is_ws(c: char) -> bool {
    let u = c as u32;
    ||| 0x9 <= u <= 0xD
    ||| u == 0x20
    ||| u == 0x85
    ||| u == 0xA0
    ||| u == 0x1680
    ||| 0x2000 <= u <= 0x200A
    ||| u == 0x2028
    ||| u == 0x2029
    ||| u == 0x202F
    ||| u == 0x205F
    ||| u == 0x3000
}

/// Whether `c` is white space.
pub fn is_whitespace(c: char) -> (r: bool)
    ensures
        r == is_ws(c),
{
    let u = c as u32;
    (0x9 <= u && u <= 0xD) || u == 0x20 || u == 0x85 || u == 0xA0 || u == 0x1680 || (0x2000 <= u
        && u <= 0x200A) || u == 0x2028 || u == 0x2029 || u == 0x202F || u == 0x205F || u == 0x3000
}

/// `s` without its leading white space.
pub open spec fn trim_start(s: Seq<char>) -> Seq<char>
    decreases s.len(),
{
    if s.len() > 0 && is_ws(s[0]) {
        trim_start(s.drop_first())
    } else {
        s
    }
}

/// `s` without its trailing white space (`str::trim_end`).
pub open spec fn trim_end(s: Seq<char>) -> Seq<char>
    decreases s.len(),
{
    if s.len() > 0 && is_ws(s.last()) {
        trim_end(s.drop_last())
    } else {
        s
    }
}

/// Cutting the trailing white space keeps a front part of `s` that is empty
/// or ends in a character other than white space, and leaves only white
/// space behind it.
pub proof fn lemma_trim_end(s: Seq<char>)
    ensures
        trim_end(s).len() <= s.len(),
        trim_end(s) == s.take(trim_end(s).len() as int),
        forall|j: int| trim_end(s).len() <= j < s.len() ==> is_ws(#[trigger] s[j]),
        trim_end(s).len() > 0 ==> !is_ws(trim_end(s).last()),
    decreases s.len(),
{
    if s.len() > 0 && is_ws(s.last()) {
        let t = s.drop_last();
        lemma_trim_end(t);
        let n = trim_end(t).len() as int;
        assert(t.take(n) =~= s.take(n));
        assert forall|j: int| n <= j < s.len() implies is_ws(#[trigger] s[j]) by {
            if j < t.len() {
                assert(t[j] == s[j]);
            }
        }
    } else {
        assert(s.take(s.len() as int) =~= s);
    }
}

/// `s` without leading and trailing white space (`str::trim`).
pub open spec fn trim(s: Seq<char>) -> Seq<char> {
    trim_end(trim_start(s))
}

/// The bounds of `trim(s)` within `s`.
pub fn trim_range(s: &[char]) -> (r: (usize, usize))
    ensures
        r.0 <= r.1 <= s@.len(),
        s@.subrange(r.0 as int, r.1 as int) == trim(s@),
{
    let mut a: usize = 0;
    assert(s@.subrange(0, s@.len() as int) =~= s@);
    while a < s.len() && is_whitespace(s[a])
        invariant
            a <= s@.len(),
            trim_start(s@) == trim_start(s@.subrange(a as int, s@.len() as int)),
        decreases s@.len() - a,
    {
        assert(s@.subrange(a as int, s@.len() as int).drop_first() =~= s@.subrange(
            a + 1,
            s@.len() as int,
        ));
        a += 1;
    }
    let mut b: usize = s.len();
    while b > a && is_whitespace(s[b - 1])
        invariant
            a <= b <= s@.len(),
            trim(s@) == trim_end(s@.subrange(a as int, b as int)),
        decreases b,
    {
        assert(s@.subrange(a as int, b as int).drop_last() =~= s@.subrange(a as int, b - 1));
        b -= 1;
    }
    (a, b)
}

/// `s` without its trailing white space.
pub fn trim_end_len(s: &[char]) -> (r: usize)
    ensures
        r <= s@.len(),
        s@.subrange(0, r as int) == trim_end(s@),
{
    let mut b: usize = s.len();
    assert(s@.subrange(0, b as int) =~= s@);
    while b > 0 && is_whitespace(s[b - 1])
        invariant
            b <= s@.len(),
            trim_end(s@) == trim_end(s@.subrange(0, b as int)),
        decreases b,
    {
        assert(s@.subrange(0, b as int).drop_last() =~= s@.subrange(0, b - 1));
        b -= 1;
    }
    b
}

/// Splitting into words: `cur` is the word read so far.
pub open spec fn words_acc(s: Seq<char>, cur: Seq<char>) -> Seq<Seq<char>>
    decreases s.len(),
{
    if s.len() == 0 {
        if cur.len() > 0 {
            seq![cur]
        } else {
            Seq::empty()
        }
    } else if is_ws(s[0]) {
        (if cur.len() > 0 {
            seq![cur]
        } else {
            Seq::empty()
        }) + words_acc(s.drop_first(), Seq::empty())
    } else {
        words_acc(s.drop_first(), cur.push(s[0]))
    }
}

/// The maximal runs of non-white-space characters of `s`
/// (`str::split_whitespace`).
pub open spec fn words(s: Seq<char>) -> Seq<Seq<char>> {
    words_acc(s, Seq::empty())
}

/// The words of `s`, as strings.
pub fn split_whitespace(s: &[char]) -> (r: Vec<String>)
    ensures
        views(r@) == words(s@),
{
    let mut out: Vec<String> = Vec::new();
    let mut st: usize = 0;
    let mut i: usize = 0;
    assert(s@.skip(0) =~= s@);
    assert(s@.subrange(0, 0) =~= Seq::<char>::empty());
    while i < s.len()
        invariant
            st <= i <= s@.len(),
            words(s@) == views(out@) + words_acc(s@.skip(i as int), s@.subrange(
                st as int,
                i as int,
            )),
        decreases s@.len() - i,
    {
        let ghost cur = s@.subrange(st as int, i as int);
        let ghost rest = s@.skip(i as int);
        assert(rest[0] == s@[i as int]);
        assert(rest.drop_first() =~= s@.skip(i + 1));
        if is_whitespace(s[i]) {
            let ghost old_out = views(out@);
            if st < i {
                let w = string_from_chars(&s[st..i]);
                out.push(w);
                assert(views(out@) =~= old_out + seq![cur]);
                assert(old_out + (seq![cur] + words_acc(s@.skip(i + 1), Seq::empty())) =~= (
                old_out + seq![cur]) + words_acc(s@.skip(i + 1), Seq::empty()));
            } else {
                assert(cur.len() == 0);
                assert(Seq::<Seq<char>>::empty() + words_acc(s@.skip(i + 1), Seq::empty())
                    =~= words_acc(s@.skip(i + 1), Seq::empty()));
            }
            st = i + 1;
            assert(s@.subrange(st as int, (i + 1) as int) =~= Seq::<char>::empty());
        } else {
            assert(cur.push(s@[i as int]) =~= s@.subrange(st as int, i + 1));
        }
        i += 1;
    }
    let ghost cur = s@.subrange(st as int, i as int);
    assert(s@.skip(i as int) =~= Seq::<char>::empty());
    if st < i {
        let w = string_from_chars(&s[st..i]);
        let ghost old_out = views(out@);
        out.push(w);
        assert(views(out@) =~= old_out + seq![cur]);
    } else {
        assert(views(out@) + Seq::<Seq<char>>::empty() =~= views(out@));
    }
    out
}

/// The pieces of `s` between the occurrences of `sep` (`str::split` with a
/// non-empty pattern).
pub open spec fn split_on<T>(s: Seq<T>, sep: Seq<T>) -> Seq<Seq<T>>
    decreases s.len(),
{
    if sep.len() == 0 {
        seq![s]
    } else {
        match find(s, sep) {
            Some(k) => if 0 <= k && k + sep.len() <= s.len() {
                seq![s.take(k)] + split_on(s.skip(k + sep.len()), sep)
            } else {
                seq![s]
            },
            None => seq![s],
        }
    }
}

/// The bounds of the pieces of `split_on(s, sep)` within `s`.
pub open spec fn ranges_match<T>(s: Seq<T>, r: Seq<(usize, usize)>, pieces: Seq<Seq<T>>) -> bool {
    &&& r.len() == pieces.len()
    &&& forall|i: int|
        0 <= i < r.len() ==> {
            &&& (#[trigger] r[i]).0 <= r[i].1 <= s.len()
            &&& s.subrange(r[i].0 as int, r[i].1 as int) == pieces[i]
        }
}

/// The bounds within `s` of the pieces between the occurrences of `sep`.
pub fn split_ranges(s: &[char], sep: &[char]) -> (r: Vec<(usize, usize)>)
    requires
        sep@.len() > 0,
    ensures
        ranges_match(s@, r@, split_on(s@, sep@)),
{
    let mut out: Vec<(usize, usize)> = Vec::new();
    let mut pos: usize = 0;
    assert(s@.skip(0) =~= s@);
    loop
        invariant
            pos <= s@.len(),
            sep@.len() > 0,
            ranges_match(s@, out@, split_on(s@, sep@).take(out@.len() as int)),
            split_on(s@, sep@) == split_on(s@, sep@).take(out@.len() as int) + split_on(
                s@.skip(pos as int),
                sep@,
            ),
        decreases s@.len() - pos,
    {
        let rest = &s[pos..s.len()];
        assert(rest@ =~= s@.skip(pos as int));
        let ghost whole = split_on(s@, sep@);
        let ghost done = whole.take(out@.len() as int);
        match find_chars(rest, sep) {
            Some(k) => {
                proof {
                    lemma_find_from(rest@, sep@, 0);
                }
                let ghost piece = rest@.take(k as int);
                assert(s@.subrange(pos as int, pos + k) =~= piece);
                assert(rest@.skip(k + sep@.len()) =~= s@.skip(pos + k + sep@.len()));
                out.push((pos, pos + k));
                assert(whole == done + (seq![piece] + split_on(
                    s@.skip(pos + k + sep@.len()),
                    sep@,
                )));
                assert(whole.take(out@.len() as int) =~= done.push(piece));
                assert(done + (seq![piece] + split_on(s@.skip(pos + k + sep@.len()), sep@))
                    =~= done.push(piece) + split_on(s@.skip(pos + k + sep@.len()), sep@));
                pos = pos + k + sep.len();
            },
            None => {
                let ghost piece = rest@;
                assert(s@.subrange(pos as int, s@.len() as int) =~= piece);
                out.push((pos, s.len()));
                assert(whole == done + seq![piece]);
                assert(whole.take(out@.len() as int) =~= done.push(piece));
                assert(whole.take(out@.len() as int) =~= whole);
                return out;
            },
        }
    }
}

/// First position at which byte `x` occurs in `hay`.
pub fn find_byte(hay: &[u8], x: u8) -> (r: Option<usize>)
    ensures
        opt_int(r) == find(hay@, seq![x]),
{
    let mut i: usize = 0;
    while i < hay.len()
        invariant
            i <= hay@.len(),
            find_from(hay@, seq![x], 0) == find_from(hay@, seq![x], i as int),
        decreases hay@.len() - i,
    {
        if hay[i] == x {
            assert(hay@.subrange(i as int, i + 1) =~= seq![x]);
            return Some(i);
        }
        assert(hay@.subrange(i as int, i + 1)[0] != seq![x][0]);
        i += 1;
    }
    None
}

/// The bounds within `s` of the pieces between the occurrences of byte
/// `sep`.
pub fn split_byte_ranges(s: &[u8], sep: u8) -> (r: Vec<(usize, usize)>)
    ensures
        ranges_match(s@, r@, split_on(s@, seq![sep])),
{
    let mut out: Vec<(usize, usize)> = Vec::new();
    let mut pos: usize = 0;
    let ghost sq = seq![sep];
    assert(s@.skip(0) =~= s@);
    loop
        invariant
            pos <= s@.len(),
            sq == seq![sep],
            ranges_match(s@, out@, split_on(s@, sq).take(out@.len() as int)),
            split_on(s@, sq) == split_on(s@, sq).take(out@.len() as int) + split_on(
                s@.skip(pos as int),
                sq,
            ),
        decreases s@.len() - pos,
    {
        let rest = &s[pos..s.len()];
        assert(rest@ =~= s@.skip(pos as int));
        let ghost whole = split_on(s@, sq);
        let ghost done = whole.take(out@.len() as int);
        match find_byte(rest, sep) {
            Some(k) => {
                proof {
                    lemma_find_from(rest@, sq, 0);
                }
                let ghost piece = rest@.take(k as int);
                assert(s@.subrange(pos as int, pos + k) =~= piece);
                assert(rest@.skip(k + 1) =~= s@.skip(pos + k + 1));
                out.push((pos, pos + k));
                assert(whole == done + (seq![piece] + split_on(s@.skip(pos + k + 1), sq)));
                assert(whole.take(out@.len() as int) =~= done.push(piece));
                assert(done + (seq![piece] + split_on(s@.skip(pos + k + 1), sq)) =~= done.push(
                    piece,
                ) + split_on(s@.skip(pos + k + 1), sq));
                pos = pos + k + 1;
            },
            None => {
                let ghost piece = rest@;
                assert(s@.subrange(pos as int, s@.len() as int) =~= piece);
                out.push((pos, s.len()));
                assert(whole == done + seq![piece]);
                assert(whole.take(out@.len() as int) =~= done.push(piece));
                assert(whole.take(out@.len() as int) =~= whole);
                return out;
            },
        }
    }
}

/// `t` without one trailing carriage return.
pub open spec fn strip_cr(t: Seq<char>) -> Seq<char> {
    if t.len() > 0 && t.last() == '\r' {
        t.drop_last()
    } else {
        t
    }
}

/// The lines of `s` (`str::lines`): pieces ended by `\n` or `\r\n`, the
/// last line ending being optional.
pub open spec fn lines(s: Seq<char>) -> Seq<Seq<char>>
    decreases s.len(),
{
    if s.len() == 0 {
        Seq::empty()
    } else {
        match find(s, seq!['\n']) {
            Some(k) => if 0 <= k && k < s.len() {
                seq![strip_cr(s.take(k))] + lines(s.skip(k + 1))
            } else {
                seq![s]
            },
            None => seq![s],
        }
    }
}

/// The bounds of the lines of `s` within `s`.
pub fn line_ranges(s: &[char]) -> (r: Vec<(usize, usize)>)
    ensures
        ranges_match(s@, r@, lines(s@)),
{
    let nl: Vec<char> = vec!['\n'];
    assert(nl@ =~= seq!['\n']);
    let mut out: Vec<(usize, usize)> = Vec::new();
    let mut pos: usize = 0;
    assert(s@.skip(0) =~= s@);
    while pos < s.len()
        invariant
            pos <= s@.len(),
            nl@ == seq!['\n'],
            ranges_match(s@, out@, lines(s@).take(out@.len() as int)),
            lines(s@) == lines(s@).take(out@.len() as int) + lines(s@.skip(pos as int)),
        decreases s@.len() - pos,
    {
        let rest = &s[pos..s.len()];
        assert(rest@ =~= s@.skip(pos as int));
        let ghost whole = lines(s@);
        let ghost done = whole.take(out@.len() as int);
        match find_chars(rest, nl.as_slice()) {
            Some(k) => {
                proof {
                    lemma_find_from(rest@, nl@, 0);
                }
                let ghost piece = strip_cr(rest@.take(k as int));
                let end = if k > 0 && rest[k - 1] == '\r' {
                    k - 1
                } else {
                    k
                };
                assert(s@.subrange(pos as int, pos + end) =~= piece);
                assert(rest@.skip(k + 1) =~= s@.skip(pos + k + 1));
                out.push((pos, pos + end));
                assert(whole == done + (seq![piece] + lines(s@.skip(pos + k + 1))));
                assert(whole.take(out@.len() as int) =~= done.push(piece));
                assert(done + (seq![piece] + lines(s@.skip(pos + k + 1))) =~= done.push(piece)
                    + lines(s@.skip(pos + k + 1)));
                pos = pos + k + 1;
            },
            None => {
                let ghost piece = rest@;
                assert(s@.subrange(pos as int, s@.len() as int) =~= piece);
                out.push((pos, s.len()));
                assert(whole == done + seq![piece]);
                assert(whole.take(out@.len() as int) =~= done.push(piece));
                assert(whole.take(out@.len() as int) =~= whole);
                return out;
            },
        }
    }
    assert(s@.skip(pos as int) =~= Seq::<char>::empty());
    assert(lines(s@).take(out@.len() as int) + Seq::<Seq<char>>::empty() =~= lines(s@).take(
        out@.len() as int,
    ));
    assert(lines(s@).take(out@.len() as int) =~= lines(s@));
    out
}

// ---------------------------------------------------------------------------
// ASCII case folding
// ---------------------------------------------------------------------------

/// The code of `c` with ASCII upper case mapped to lower case.
pub open spec fn ascii_fold(c: char) -> u32 {
    if 65 <= c as u32 <= 90 {
        (c as u32 + 32) as u32
    } else {
        c as u32
    }
}

/// `str::eq_ignore_ascii_case`: equal up to ASCII case.
pub open spec fn eq_ignore_ascii_case(a: Seq<char>, b: Seq<char>) -> bool {
    &&& a.len() == b.len()
    &&& forall|i: int| 0 <= i < a.len() ==> ascii_fold(#[trigger] a[i]) == ascii_fold(b[i])
}

fn fold_char(c: char) -> (r: u32)
    ensures
        r == ascii_fold(c),
{
    let u = c as u32;
    if 65 <= u && u <= 90 {
        u + 32
    } else {
        u
    }
}

/// `needle` occurs at `i` in `hay`, ignoring ASCII case.
pub open spec fn at_ci(hay: Seq<char>, needle: Seq<char>, i: int) -> bool {
    0 <= i && i + needle.len() <= hay.len() && eq_ignore_ascii_case(
        hay.subrange(i, i + needle.len()),
        needle,
    )
}

/// First position at or after `i` at which `needle` occurs in `hay`,
/// ignoring ASCII case.
pub open spec fn find_ci_from(hay: Seq<char>, needle: Seq<char>, i: int) -> Option<int>
    decreases hay.len() - i,
{
    if i < 0 || i + needle.len() > hay.len() {
        None
    } else if at_ci(hay, needle, i) {
        Some(i)
    } else {
        find_ci_from(hay, needle, i + 1)
    }
}

/// First position at which `needle` occurs in `hay`, ignoring ASCII case.
pub open spec fn find_ci(hay: Seq<char>, needle: Seq<char>) -> Option<int> {
    find_ci_from(hay, needle, 0)
}

/// What a successful case-insensitive search returns: an occurrence
/// within the text.
pub proof fn lemma_find_ci_from(hay: Seq<char>, needle: Seq<char>, i: int)
    requires
        0 <= i,
    ensures
        find_ci_from(hay, needle, i) matches Some(k) ==> i <= k && k + needle.len() <= hay.len()
            && at_ci(hay, needle, k),
    decreases hay.len() - i,
{
    if i + needle.len() <= hay.len() && !at_ci(hay, needle, i) {
        lemma_find_ci_from(hay, needle, i + 1);
    }
}

/// Whether `needle` occurs at `i` in `hay`, ignoring ASCII case.
fn matches_ci_at(hay: &[char], needle: &[char], i: usize) -> (r: bool)
    requires
        i + needle@.len() <= hay@.len(),
    ensures
        r == at_ci(hay@, needle@, i as int),
{
    let mut j: usize = 0;
    while j < needle.len()
        invariant
            i + needle@.len() <= hay@.len(),
            j <= needle@.len(),
            forall|k: int| 0 <= k < j ==> ascii_fold(hay@[i + k]) == ascii_fold(needle@[k]),
        decreases needle@.len() - j,
    {
        assert(i + j < hay.len());
        if fold_char(hay[i + j]) != fold_char(needle[j]) {
            assert(hay@.subrange(i as int, i + needle@.len())[j as int] == hay@[i + j]);
            return false;
        }
        j += 1;
    }
    assert forall|k: int| 0 <= k < needle@.len() implies ascii_fold(
        #[trigger] hay@.subrange(i as int, i + needle@.len())[k],
    ) == ascii_fold(needle@[k]) by {
        assert(hay@.subrange(i as int, i + needle@.len())[k] == hay@[i + k]);
    }
    true
}

/// First position at which `needle` occurs in `hay`, ignoring ASCII case.
pub fn find_chars_ci(hay: &[char], needle: &[char]) -> (r: Option<usize>)
    ensures
        opt_int(r) == find_ci(hay@, needle@),
{
    let mut i: usize = 0;
    while i <= hay.len() && needle.len() <= hay.len() - i
        invariant
            i <= hay@.len() + 1,
            find_ci_from(hay@, needle@, 0) == find_ci_from(hay@, needle@, i as int),
        decreases hay@.len() + 1 - i,
    {
        if matches_ci_at(hay, needle, i) {
            return Some(i);
        }
        i += 1;
    }
    None
}

/// Whether `a` and `b` are equal up to ASCII case.
pub fn eq_ignore_case_chars(a: &[char], b: &[char]) -> (r: bool)
    ensures
        r == eq_ignore_ascii_case(a@, b@),
{
    if a.len() != b.len() {
        return false;
    }
    let mut i: usize = 0;
    while i < a.len()
        invariant
            a@.len() == b@.len(),
            i <= a@.len(),
            forall|k: int| 0 <= k < i ==> ascii_fold(#[trigger] a@[k]) == ascii_fold(b@[k]),
        decreases a@.len() - i,
    {
        if fold_char(a[i]) != fold_char(b[i]) {
            return false;
        }
        i += 1;
    }
    true
}


// ---------------------------------------------------------------------------
// Decimal numbers
// ---------------------------------------------------------------------------

/// The ASCII digit for `d < 10`.
pub open spec fn digit_char(d: int) -> char {
    (48 + d) as char
}

/// The decimal representation of `n`, without leading zeros
/// (what `Display` writes for an unsigned integer).
pub open spec fn dec_digits(n: nat) -> Seq<char>
    decreases n,
{
    if n < 10 {
        seq![digit_char(n as int)]
    } else {
        dec_digits(n / 10).push(digit_char((n % 10) as int))
    }
}

/// The ASCII digit for `d`.
pub fn digit(d: u64) -> (c: char)
    requires
        d < 10,
    ensures
        c == digit_char(d as int),
{
    match d {
        0 => '0',
        1 => '1',
        2 => '2',
        3 => '3',
        4 => '4',
        5 => '5',
        6 => '6',
        7 => '7',
        8 => '8',
        _ => '9',
    }
}

/// Appends the decimal representation of `n` to `out`.
pub fn push_decimal(n: u64, out: &mut Vec<char>)
    ensures
        final(out)@ == old(out)@ + dec_digits(n as nat),
    decreases n,
{
    if n >= 10 {
        push_decimal(n / 10, out);
    }
    out.push(digit(n % 10));
    proof {
        if n >= 10 {
            assert(old(out)@ + dec_digits(n as nat) =~= old(out)@ + dec_digits((n / 10) as nat)
                + seq![digit_char((n % 10) as int)]);
        } else {
            assert(old(out)@ + dec_digits(n as nat) =~= old(out)@ + seq![digit_char(n as int)]);
        }
    }
}

} // verus!
