//! Segment-aware transliteration of Japanese text inside filenames.
//!
//! A string is scanned left to right; maximal runs of Japanese-script
//! characters are handed as a unit to the phonetic engine, whose output is
//! lowercased and stripped of spaces.  Every other character passes through
//! unchanged, except the ASCII space, which becomes the configured separator.

use vstd::prelude::*;
use vstd::string::StrSliceExecFns;

verus! {

/// A character counts as Japanese script when its code point lies in one of
/// these inclusive ranges: Hiragana, Katakana, CJK Unified Ideographs,
/// CJK Extension A, CJK Compatibility Ideographs, Halfwidth Katakana.
pub open spec fn is_japanese_char(c: char) -> bool {
    let u = c as u32;
    (0x3040 <= u && u <= 0x309F)
    || (0x30A0 <= u && u <= 0x30FF)
    || (0x4E00 <= u && u <= 0x9FFF)
    || (0x3400 <= u && u <= 0x4DBF)
    || (0xF900 <= u && u <= 0xFAFF)
    || (0xFF66 <= u && u <= 0xFF9F)
}

/// Classify one character as Japanese script or not.
pub fn is_japanese(c: char) -> (r: bool)
    ensures
        r == is_japanese_char(c),
{
    let u = c as u32;
    (0x3040 <= u && u <= 0x309F)
    || (0x30A0 <= u && u <= 0x30FF)
    || (0x4E00 <= u && u <= 0x9FFF)
    || (0x3400 <= u && u <= 0x4DBF)
    || (0xF900 <= u && u <= 0xFAFF)
    || (0xFF66 <= u && u <= 0xFF9F)
}

/// The romaji reading that the phonetic engine assigns to a piece of text.
pub uninterp spec fn romaji_of(s: Seq<char>) -> Seq<char>;

/// The lowercase form of a piece of text.
pub uninterp spec fn lower_of(s: Seq<char>) -> Seq<char>;

/// Relies on kakasi::convert: the romaji reading depends on the input text
/// alone, and the empty input yields an empty reading.
#[verifier::external_body]
fn kakasi_romaji(run: &Vec<char>) -> (r: Vec<char>)
    ensures
        r@ == romaji_of(run@),
        run@.len() == 0 ==> r@.len() == 0,
{
    let text: String = run.iter().collect();
    kakasi::convert(&text).romaji.chars().collect()
}

/// Relies on str::to_lowercase: the result depends on the characters alone,
/// and the empty input stays empty.
#[verifier::external_body]
fn lowercase_chars(v: &Vec<char>) -> (r: Vec<char>)
    ensures
        r@ == lower_of(v@),
        v@.len() == 0 ==> r@.len() == 0,
{
    let text: String = v.iter().collect();
    text.to_lowercase().chars().collect()
}

/// Relies on String's FromIterator impl: collecting characters concatenates
/// exactly those characters, in order, into the new string.
#[verifier::external_body]
pub(crate) fn string_from_chars(v: &Vec<char>) -> (r: String)
    ensures
        r@ == v@,
{
    v.iter().collect()
}

/// The characters of a string slice, as a vector.
pub(crate) fn to_chars(s: &str) -> (v: Vec<char>)
    ensures
        v@ == s@,
{
    let n: usize = s.unicode_len();
    let mut v: Vec<char> = Vec::new();
    let mut i: usize = 0;
    while i < n
        invariant
            n == s@.len(),
            i <= n,
            v@ == s@.take(i as int),
        decreases n - i,
    {
        let c = s.get_char(i);
        v.push(c);
        proof {
            assert(s@.take((i + 1) as int) =~= s@.take(i as int).push(s@[i as int]));
        }
        i = i + 1;
    }
    proof {
        assert(s@.take(n as int) =~= s@);
    }
    v
}

/// `s` with every ASCII space removed.
pub open spec fn without_spaces(s: Seq<char>) -> Seq<char>
    decreases s.len(),
{
    if s.len() == 0 {
        Seq::empty()
    } else {
        let r = without_spaces(s.drop_last());
        if s.last() == ' ' {
            r
        } else {
            r.push(s.last())
        }
    }
}

/// Remove every ASCII space from a character vector.
fn strip_spaces(v: &Vec<char>) -> (r: Vec<char>)
    ensures
        r@ == without_spaces(v@),
{
    let mut r: Vec<char> = Vec::new();
    let mut i: usize = 0;
    while i < v.len()
        invariant
            i <= v@.len(),
            r@ == without_spaces(v@.take(i as int)),
        decreases v@.len() - i,
    {
        let c = v[i];
        proof {
            assert(v@.take((i + 1) as int).drop_last() =~= v@.take(i as int));
            assert(v@.take((i + 1) as int).last() == v@[i as int]);
        }
        if c != ' ' {
            r.push(c);
        }
        i = i + 1;
    }
    proof {
        assert(v@.take(v@.len() as int) =~= v@);
    }
    r
}

/// Length of the maximal run of Japanese-script characters at the front.
pub open spec fn jp_run_len(s: Seq<char>) -> nat
    decreases s.len(),
{
    if s.len() > 0 && is_japanese_char(s[0]) {
        (1 + jp_run_len(s.drop_first())) as nat
    } else {
        0
    }
}

proof fn lemma_jp_run_len_le(s: Seq<char>)
    ensures
        jp_run_len(s) <= s.len(),
    decreases s.len(),
{
    if s.len() > 0 && is_japanese_char(s[0]) {
        lemma_jp_run_len_le(s.drop_first());
    }
}

/// The run length is exactly the first position holding no Japanese-script
/// character (or the whole length when every character is one).
proof fn lemma_jp_run_len_eq(s: Seq<char>, n: int)
    requires
        0 <= n <= s.len(),
        forall|k: int| 0 <= k < n ==> is_japanese_char(s[k]),
        n == s.len() || !is_japanese_char(s[n]),
    ensures
        jp_run_len(s) == n,
    decreases n,
{
    if n == 0 {
    } else {
        assert(is_japanese_char(s[0]));
        let t = s.drop_first();
        assert forall|k: int| 0 <= k < n - 1 implies is_japanese_char(t[k]) by {
            assert(t[k] == s[k + 1]);
        }
        if n < s.len() {
            assert(t[n - 1] == s[n]);
        }
        lemma_jp_run_len_eq(t, n - 1);
    }
}

/// The normalized transliteration of one Japanese run: the engine's romaji
/// reading, lowercased, with the spaces the engine inserts removed.
pub open spec fn norm_romaji(run: Seq<char>) -> Seq<char> {
    without_spaces(lower_of(romaji_of(run)))
}

/// The segment transliteration of `s`: Japanese runs are replaced by their
/// normalized romaji, spaces by `sep`, every other character by itself.
pub open spec fn convert_chars(s: Seq<char>, sep: char) -> Seq<char>
    decreases s.len(),
    via convert_chars_decreases
{
    if s.len() == 0 {
        Seq::empty()
    } else if is_japanese_char(s[0]) {
        norm_romaji(s.take(jp_run_len(s) as int)) + convert_chars(
            s.skip(jp_run_len(s) as int),
            sep,
        )
    } else if s[0] == ' ' {
        seq![sep] + convert_chars(s.drop_first(), sep)
    } else {
        seq![s[0]] + convert_chars(s.drop_first(), sep)
    }
}

#[via_fn]
proof fn convert_chars_decreases(s: Seq<char>, sep: char) {
    if s.len() > 0 && is_japanese_char(s[0]) {
        lemma_jp_run_len_le(s);
        assert(jp_run_len(s) >= 1);
    }
}

/// Transliterate the Japanese runs of a vector of characters.
fn convert_chars_vec(v: &Vec<char>, sep: char) -> (out: Vec<char>)
    ensures
        out@ == convert_chars(v@, sep),
{
    let mut out: Vec<char> = Vec::new();
    let mut i: usize = 0;
    proof {
        assert(v@.skip(0) =~= v@);
        assert(out@ + convert_chars(v@, sep) =~= convert_chars(v@, sep));
    }
    while i < v.len()
        invariant
            i <= v@.len(),
            convert_chars(v@, sep) == out@ + convert_chars(v@.skip(i as int), sep),
        decreases v@.len() - i,
    {
        let c = v[i];
        let ghost prev = out@;
        if is_japanese(c) {
            let mut j: usize = i + 1;
            let mut run: Vec<char> = Vec::new();
            run.push(c);
            proof {
                assert(v@.subrange(i as int, (i + 1) as int) =~= seq![v@[i as int]]);
            }
            while j < v.len() && is_japanese(v[j])
                invariant
                    i < j <= v@.len(),
                    run@ == v@.subrange(i as int, j as int),
                    forall|k: int| i <= k < j ==> is_japanese_char(v@[k]),
                decreases v@.len() - j,
            {
                run.push(v[j]);
                proof {
                    assert(v@.subrange(i as int, (j + 1) as int) =~= v@.subrange(
                        i as int,
                        j as int,
                    ).push(v@[j as int]));
                }
                j = j + 1;
            }
            proof {
                let rest = v@.skip(i as int);
                assert forall|k: int| 0 <= k < j - i implies is_japanese_char(rest[k]) by {
                    assert(rest[k] == v@[k + i]);
                }
                if (j as int) < v@.len() {
                    assert(rest[j - i] == v@[j as int]);
                    assert(!is_japanese_char(rest[j - i]));
                }
                lemma_jp_run_len_eq(rest, j - i);
                assert(rest.take((j - i) as int) =~= v@.subrange(i as int, j as int));
                assert(rest.skip((j - i) as int) =~= v@.skip(j as int));
                assert(convert_chars(rest, sep) == norm_romaji(run@) + convert_chars(
                    v@.skip(j as int),
                    sep,
                ));
            }
            let rom = kakasi_romaji(&run);
            let low = lowercase_chars(&rom);
            let mut norm = strip_spaces(&low);
            proof {
                assert(norm@ == norm_romaji(run@));
            }
            out.append(&mut norm);
            proof {
                assert(prev + (norm_romaji(run@) + convert_chars(v@.skip(j as int), sep)) =~= (prev
                    + norm_romaji(run@)) + convert_chars(v@.skip(j as int), sep));
                assert(convert_chars(v@, sep) == out@ + convert_chars(v@.skip(j as int), sep));
            }
            i = j;
        } else {
            let e = if c == ' ' {
                sep
            } else {
                c
            };
            out.push(e);
            proof {
                let rest = v@.skip(i as int);
                assert(rest[0] == v@[i as int]);
                assert(rest.drop_first() =~= v@.skip((i + 1) as int));
                assert(convert_chars(rest, sep) == seq![e] + convert_chars(
                    v@.skip((i + 1) as int),
                    sep,
                ));
                assert(prev + (seq![e] + convert_chars(v@.skip((i + 1) as int), sep)) =~= (prev
                    + seq![e]) + convert_chars(v@.skip((i + 1) as int), sep));
                assert(out@ =~= prev + seq![e]);
                assert(convert_chars(v@, sep) == out@ + convert_chars(
                    v@.skip((i + 1) as int),
                    sep,
                ));
            }
            i = i + 1;
        }
    }
    proof {
        assert(v@.skip(v@.len() as int) =~= Seq::<char>::empty());
        assert(out@ + convert_chars(v@.skip(v@.len() as int), sep) =~= out@);
    }
    out
}

/// Transliterate the Japanese runs of `s`, replacing spaces outside the runs
/// by `separator` and keeping every other non-Japanese character unchanged.
pub fn convert_segments(s: &str, separator: char) -> (r: String)
    ensures
        r@ == convert_chars(s@, separator),
{
    let v = to_chars(s);
    let out = convert_chars_vec(&v, separator);
    string_from_chars(&out)
}

/// Length of the maximal run of `.` characters at the front of a name.
pub open spec fn leading_dots(s: Seq<char>) -> nat
    decreases s.len(),
{
    if s.len() > 0 && s[0] == '.' {
        (1 + leading_dots(s.drop_first())) as nat
    } else {
        0
    }
}

/// The leading-dot run never reaches past the end of the name.
pub proof fn lemma_leading_dots_le(s: Seq<char>)
    ensures
        leading_dots(s) <= s.len(),
    decreases s.len(),
{
    if s.len() > 0 && s[0] == '.' {
        lemma_leading_dots_le(s.drop_first());
    }
}

proof fn lemma_leading_dots_eq(s: Seq<char>, p: int)
    requires
        0 <= p <= s.len(),
        forall|k: int| 0 <= k < p ==> s[k] == '.',
        p == s.len() || s[p] != '.',
    ensures
        leading_dots(s) == p,
    decreases p,
{
    if p == 0 {
    } else {
        assert(s[0] == '.');
        let t = s.drop_first();
        assert forall|k: int| 0 <= k < p - 1 implies t[k] == '.' by {
            assert(t[k] == s[k + 1]);
        }
        if p < s.len() {
            assert(t[p - 1] == s[p]);
        }
        lemma_leading_dots_eq(t, p - 1);
    }
}

/// The largest index at which `c` occurs in `s`, or -1 when it does not.
pub open spec fn last_index_of(s: Seq<char>, c: char) -> int
    decreases s.len(),
{
    if s.len() == 0 {
        -1
    } else if s.last() == c {
        s.len() - 1
    } else {
        last_index_of(s.drop_last(), c)
    }
}

pub(crate) proof fn lemma_last_index_of_none(s: Seq<char>, c: char)
    requires
        forall|k: int| 0 <= k < s.len() ==> s[k] != c,
    ensures
        last_index_of(s, c) == -1,
    decreases s.len(),
{
    if s.len() > 0 {
        let t = s.drop_last();
        assert forall|k: int| 0 <= k < t.len() implies t[k] != c by {
            assert(t[k] == s[k]);
        }
        lemma_last_index_of_none(t, c);
    }
}

pub(crate) proof fn lemma_last_index_of_at(s: Seq<char>, c: char, d: int)
    requires
        0 <= d < s.len(),
        s[d] == c,
        forall|k: int| d < k < s.len() ==> s[k] != c,
    ensures
        last_index_of(s, c) == d,
    decreases s.len(),
{
    if d == s.len() - 1 {
    } else {
        assert(s.last() != c);
        let t = s.drop_last();
        assert(t[d] == s[d]);
        assert forall|k: int| d < k < t.len() implies t[k] != c by {
            assert(t[k] == s[k]);
        }
        lemma_last_index_of_at(t, c, d);
    }
}

/// What `last_index_of` says about the occurrences of `c` in `s`.
pub proof fn lemma_last_index_of_props(s: Seq<char>, c: char)
    ensures
        -1 <= last_index_of(s, c) < s.len(),
        last_index_of(s, c) >= 0 ==> s[last_index_of(s, c)] == c,
        forall|k: int| last_index_of(s, c) < k < s.len() ==> s[k] != c,
    decreases s.len(),
{
    if s.len() > 0 && s.last() != c {
        let t = s.drop_last();
        lemma_last_index_of_props(t, c);
        assert forall|k: int| last_index_of(s, c) < k < s.len() implies s[k] != c by {
            if k < s.len() - 1 {
                assert(t[k] == s[k]);
            }
        }
    }
}

/// The filename transliteration of `name`: the maximal leading run of dots
/// is kept; the remainder is split at its last dot into stem and extension;
/// only the stem is transliterated; the extension is kept verbatim.  A name
/// that is empty or consists solely of dots is returned unchanged.
pub open spec fn convert_filename_chars(name: Seq<char>, sep: char) -> Seq<char> {
    let p = leading_dots(name) as int;
    if p == name.len() {
        name
    } else {
        let rest = name.skip(p);
        let d = last_index_of(rest, '.');
        if d < 1 {
            name.take(p) + convert_chars(rest, sep)
        } else {
            name.take(p) + convert_chars(rest.take(d), sep) + seq!['.'] + rest.skip(d + 1)
        }
    }
}

/// The extension of a name: the text after the final dot of the part that
/// follows the leading-dot run, when such a dot exists.
pub open spec fn extension_of(name: Seq<char>) -> Option<Seq<char>> {
    let p = leading_dots(name) as int;
    if p == name.len() {
        None
    } else {
        let rest = name.skip(p);
        let d = last_index_of(rest, '.');
        if d < 1 {
            None
        } else {
            Some(rest.skip(d + 1))
        }
    }
}

/// Copy of `v[a..b]` as a fresh vector.
pub(crate) fn subvec(v: &Vec<char>, a: usize, b: usize) -> (r: Vec<char>)
    requires
        a <= b <= v@.len(),
    ensures
        r@ == v@.subrange(a as int, b as int),
{
    let mut r: Vec<char> = Vec::new();
    let mut k: usize = a;
    proof {
        assert(v@.subrange(a as int, a as int) =~= Seq::<char>::empty());
    }
    while k < b
        invariant
            a <= k <= b <= v@.len(),
            r@ == v@.subrange(a as int, k as int),
        decreases b - k,
    {
        r.push(v[k]);
        proof {
            assert(v@.subrange(a as int, (k + 1) as int) =~= v@.subrange(a as int, k as int).push(
                v@[k as int],
            ));
        }
        k = k + 1;
    }
    r
}

/// Transliterate a filename: the leading-dot run and the final extension are
/// preserved byte for byte; only the stem is transliterated.
pub fn convert_filename(name: &str, separator: char) -> (r: String)
    ensures
        r@ == convert_filename_chars(name@, separator),
{
    let v = to_chars(name);
    let mut p: usize = 0;
    while p < v.len() && v[p] == '.'
        invariant
            p <= v@.len(),
            v@ == name@,
            forall|k: int| 0 <= k < p ==> v@[k] == '.',
        decreases v@.len() - p,
    {
        p = p + 1;
    }
    proof {
        lemma_leading_dots_eq(v@, p as int);
    }
    if p == v.len() {
        return name.to_owned();
    }
    let mut j: usize = v.len();
    while j > p && v[j - 1] != '.'
        invariant
            p <= j <= v@.len(),
            v@ == name@,
            forall|k: int| j <= k < v@.len() ==> v@[k] != '.',
        decreases j,
    {
        j = j - 1;
    }
    let ghost rest = v@.skip(p as int);
    proof {
        if j == p {
            assert forall|k: int| 0 <= k < rest.len() implies rest[k] != '.' by {
                assert(rest[k] == v@[k + p]);
            }
            lemma_last_index_of_none(rest, '.');
        } else {
            assert(rest[j - 1 - p] == v@[j - 1]);
            assert forall|k: int| j - p <= k < rest.len() implies rest[k] != '.' by {
                assert(rest[k] == v@[k + p]);
            }
            lemma_last_index_of_at(rest, '.', j - 1 - p);
        }
    }
    let mut out: Vec<char>;
    if j == p {
        let stem = subvec(&v, p, v.len());
        let conv = convert_chars_vec(&stem, separator);
        out = subvec(&v, 0, p);
        let mut tmp = conv;
        out.append(&mut tmp);
        proof {
            assert(stem@ =~= rest);
            assert(v@.take(p as int) =~= v@.subrange(0, p as int));
            assert(out@ =~= convert_filename_chars(name@, separator));
        }
    } else {
        let d = j - 1;
        proof {
            assert(v@[p as int] != '.');
            assert(v@[d as int] == '.');
        }
        let stem = subvec(&v, p, d);
        let conv = convert_chars_vec(&stem, separator);
        out = subvec(&v, 0, p);
        let mut tmp = conv;
        out.append(&mut tmp);
        out.push('.');
        let mut ext = subvec(&v, d + 1, v.len());
        out.append(&mut ext);
        proof {
            assert(stem@ =~= rest.take((d - p) as int));
            assert(v@.subrange((d + 1) as int, v@.len() as int) =~= rest.skip((d - p + 1) as int));
            assert(v@.take(p as int) =~= v@.subrange(0, p as int));
            assert(out@ =~= convert_filename_chars(name@, separator));
        }
    }
    string_from_chars(&out)
}

proof fn lemma_convert_chars_identity(s: Seq<char>, sep: char)
    requires
        forall|i: int|
            0 <= i < s.len() ==> !is_japanese_char(s[i]) && (s[i] == ' ' ==> sep == ' '),
    ensures
        convert_chars(s, sep) == s,
    decreases s.len(),
{
    if s.len() == 0 {
        assert(convert_chars(s, sep) =~= s);
    } else {
        assert(!is_japanese_char(s[0]));
        let t = s.drop_first();
        assert forall|i: int|
            0 <= i < t.len() implies !is_japanese_char(t[i]) && (t[i] == ' ' ==> sep == ' ') by {
            assert(t[i] == s[i + 1]);
        }
        lemma_convert_chars_identity(t, sep);
        if s[0] == ' ' {
            assert(sep == ' ');
            assert(seq![sep] + t =~= s);
        } else {
            assert(seq![s[0]] + t =~= s);
        }
    }
}

/// A name that holds no Japanese-script character, and spaces at most when
/// the separator is itself a space, is returned unchanged.
pub proof fn lemma_no_japanese_identity(name: Seq<char>, sep: char)
    requires
        forall|i: int|
            0 <= i < name.len() ==> !is_japanese_char(name[i]) && (name[i] == ' ' ==> sep == ' '),
    ensures
        convert_filename_chars(name, sep) == name,
{
    lemma_leading_dots_le(name);
    let p = leading_dots(name) as int;
    if p == name.len() {
    } else {
        let rest = name.skip(p);
        assert forall|i: int|
            0 <= i < rest.len() implies !is_japanese_char(rest[i]) && (rest[i] == ' ' ==> sep
            == ' ') by {
            assert(rest[i] == name[i + p]);
        }
        let d = last_index_of(rest, '.');
        lemma_last_index_of_props(rest, '.');
        if d < 1 {
            lemma_convert_chars_identity(rest, sep);
            assert(name.take(p) + rest =~= name);
        } else {
            let stem = rest.take(d);
            assert forall|i: int|
                0 <= i < stem.len() implies !is_japanese_char(stem[i]) && (stem[i] == ' ' ==> sep
                == ' ') by {
                assert(stem[i] == rest[i]);
            }
            lemma_convert_chars_identity(stem, sep);
            assert(rest[d] == '.');
            assert(name.take(p) + rest.take(d) + seq!['.'] + rest.skip(d + 1) =~= name);
        }
    }
}

/// When the input has an extension, the result ends in a dot followed by
/// that extension, byte for byte, and the extension holds no dot, so the
/// text after the result's final dot is exactly the input's extension.
pub proof fn lemma_extension_preserved(name: Seq<char>, sep: char)
    requires
        extension_of(name) is Some,
    ensures
        ({
            let ext = extension_of(name)->Some_0;
            let r = convert_filename_chars(name, sep);
            &&& r.len() > ext.len()
            &&& r.skip(r.len() - ext.len()) == ext
            &&& r[r.len() - ext.len() - 1] == '.'
            &&& forall|i: int| 0 <= i < ext.len() ==> ext[i] != '.'
        }),
{
    lemma_leading_dots_le(name);
    let p = leading_dots(name) as int;
    let rest = name.skip(p);
    let d = last_index_of(rest, '.');
    lemma_last_index_of_props(rest, '.');
    let ext = rest.skip(d + 1);
    let r = convert_filename_chars(name, sep);
    assert forall|i: int| 0 <= i < ext.len() implies ext[i] != '.' by {
        assert(ext[i] == rest[d + 1 + i]);
    }
    assert(r.skip(r.len() - ext.len()) =~= ext);
    assert(r[r.len() - ext.len() - 1] == '.');
}

/// The characters inside the leading-dot run are dots, and the character
/// right after it, when any, is not.
pub proof fn lemma_leading_dots_chars(s: Seq<char>)
    ensures
        forall|k: int| 0 <= k < leading_dots(s) ==> s[k] == '.',
        leading_dots(s) < s.len() ==> s[leading_dots(s) as int] != '.',
    decreases s.len(),
{
    lemma_leading_dots_le(s);
    if s.len() > 0 && s[0] == '.' {
        let t = s.drop_first();
        lemma_leading_dots_chars(t);
        lemma_leading_dots_le(t);
        assert forall|k: int| 0 <= k < leading_dots(s) implies s[k] == '.' by {
            if k > 0 {
                assert(t[k - 1] == s[k]);
            }
        }
        if leading_dots(s) < s.len() {
            assert(t[leading_dots(s) - 1] == s[leading_dots(s) as int]);
        }
    }
}

/// The count of leading dots is preserved exactly whenever the converted
/// stem neither vanishes nor begins with a dot of its own.
pub proof fn lemma_leading_dots_count(name: Seq<char>, sep: char)
    requires
        ({
            let p = leading_dots(name) as int;
            let rest = name.skip(p);
            let d = last_index_of(rest, '.');
            let stem = if d < 1 {
                rest
            } else {
                rest.take(d)
            };
            p < name.len() ==> (convert_chars(stem, sep).len() > 0 && convert_chars(stem, sep)[0]
                != '.')
        }),
    ensures
        leading_dots(convert_filename_chars(name, sep)) == leading_dots(name),
{
    lemma_leading_dots_le(name);
    lemma_leading_dots_chars(name);
    let p = leading_dots(name) as int;
    let r = convert_filename_chars(name, sep);
    if p == name.len() {
    } else {
        assert forall|k: int| 0 <= k < p implies r[k] == '.' by {
            assert(r[k] == name[k]);
        }
        assert(r[p] != '.');
        lemma_leading_dots_eq(r, p);
    }
}

/// The result begins with the input's maximal leading run of dots.
pub proof fn lemma_leading_dots_preserved(name: Seq<char>, sep: char)
    ensures
        ({
            let p = leading_dots(name) as int;
            let r = convert_filename_chars(name, sep);
            &&& r.len() >= p
            &&& r.take(p) == name.take(p)
        }),
{
    lemma_leading_dots_le(name);
    let p = leading_dots(name) as int;
    let r = convert_filename_chars(name, sep);
    assert(r.take(p) =~= name.take(p));
}

} // verus!
