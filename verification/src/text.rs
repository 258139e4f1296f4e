//! Character-level text operations with their specifications.
use vstd::prelude::*;
use vstd::string::StringSliceAdditionalSpecFns;
use vstd::utf8::{
    decode_utf8, decode_utf8_encode_utf8, encode_utf8, encode_utf8_decode_utf8,
    encode_scalar, encode_utf8_valid_utf8, has_width_3_encoding, is_char_boundary,
    is_char_boundary_iff_not_is_continuation_byte, is_continuation_byte, leading_byte_width_3,
    valid_utf8, valid_utf8_split,
};

verus! {

/// Appends `c` to `s`.
///
/// Wraps `String::push`, which std documents as appending the given char to the
/// end of the string.
#[verifier::external_body]
pub(crate) fn push_char(s: &mut String, c: char)
    ensures
        final(s)@ == old(s)@.push(c),
{
    s.push(c);
}

/// The characters of `s`, in order.
pub fn chars_of(s: &str) -> (v: Vec<char>)
    ensures
        v@ == s@,
{
    let mut v: Vec<char> = Vec::new();
    for c in it: s.chars()
        invariant
            v@ == it.seq().take(it.index() as int),
            it.seq() == s@,
    {
        v.push(c);
    }
    v
}

/// The text of an optional string.
pub open spec fn opt_text(o: Option<String>) -> Option<Seq<char>> {
    match o {
        Some(s) => Some(s@),
        None => None,
    }
}

/// The texts of a sequence of strings.
pub open spec fn texts(v: Seq<String>) -> Seq<Seq<char>> {
    v.map_values(|s: String| s@)
}

/// `n` copies of `c`.
pub open spec fn repeated(c: char, n: nat) -> Seq<char> {
    Seq::new(n, |i: int| c)
}

/// A horizontal rule of `width` dashes.
pub fn rule(width: usize) -> (t: String)
    ensures
        t@ == repeated('-', width as nat),
{
    let mut t = String::new();
    push_repeated(&mut t, '-', width);
    proof {
        assert(t@ =~= repeated('-', width as nat));
    }
    t
}

/// The decimal digit for `d`, for `0 <= d < 10`.
pub open spec fn digit_char(d: int) -> char {
    ('0' as int + d) as char
}

/// The decimal representation of `n`, without leading zeros.
pub open spec fn decimal(n: nat) -> Seq<char>
    decreases n,
{
    if n < 10 {
        seq![digit_char(n as int)]
    } else {
        decimal(n / 10).push(digit_char((n % 10) as int))
    }
}

/// `s` preceded by copies of `fill`, to make it `width` characters long.
pub open spec fn padded_left(s: Seq<char>, width: nat, fill: char) -> Seq<char> {
    if s.len() < width {
        repeated(fill, (width - s.len()) as nat) + s
    } else {
        s
    }
}

/// `s` followed by spaces, to make it `width` characters long.
pub open spec fn padded_right(s: Seq<char>, width: nat) -> Seq<char> {
    if s.len() < width {
        s + repeated(' ', (width - s.len()) as nat)
    } else {
        s
    }
}

/// Appends `n` copies of `c` to `s`.
pub fn push_repeated(s: &mut String, c: char, n: usize)
    ensures
        final(s)@ == old(s)@ + repeated(c, n as nat),
{
    let ghost start = s@;
    let mut i: usize = 0;
    while i < n
        invariant
            i <= n,
            s@ == start + repeated(c, i as nat),
        decreases n - i,
    {
        push_char(s, c);
        i = i + 1;
        assert(s@ =~= start + repeated(c, i as nat));
    }
}

/// The digit for `d` as a char.
fn digit(d: u64) -> (c: char)
    requires
        d < 10,
    ensures
        c == digit_char(d as int),
{
    let b: u8 = 48u8 + d as u8;
    b as char
}

/// Appends the decimal representation of `n` to `s`.
pub fn push_decimal(s: &mut String, n: u64)
    ensures
        final(s)@ == old(s)@ + decimal(n as nat),
    decreases n,
{
    if n < 10 {
        push_char(s, digit(n));
        assert(decimal(n as nat) =~= seq![digit_char(n as int)]);
    } else {
        push_decimal(s, n / 10);
        push_char(s, digit(n % 10));
        assert(old(s)@ + decimal(n as nat) =~= old(s)@ + decimal((n / 10) as nat) + seq![digit_char((n % 10) as int)]);
    }
}

/// The decimal representation of `n`.
pub fn decimal_text(n: u64) -> (t: String)
    ensures
        t@ == decimal(n as nat),
{
    let mut t = String::new();
    push_decimal(&mut t, n);
    assert(t@ =~= decimal(n as nat));
    t
}

/// Appends `n` in decimal to `s`, preceded by zeros to make at least `width` digits.
pub fn push_zero_padded(s: &mut String, n: u64, width: usize)
    ensures
        final(s)@ == old(s)@ + padded_left(decimal(n as nat), width as nat, '0'),
{
    let digits = decimal_text(n);
    let len = digits.unicode_len();
    if len < width {
        push_repeated(s, '0', width - len);
    }
    s.append(digits.as_str());
}

/// `needle` occurs in `hay` as a run of consecutive characters.
pub open spec fn contains_text(hay: Seq<char>, needle: Seq<char>) -> bool {
    exists|i: int|
        0 <= i && i + needle.len() <= hay.len() && #[trigger] hay.subrange(i, i + needle.len())
            == needle
}

/// `needle` occurs in `hay` starting at index `i`.
fn occurs_at(hay: &Vec<char>, needle: &Vec<char>, i: usize) -> (b: bool)
    requires
        i + needle.len() <= hay.len(),
    ensures
        b == (hay@.subrange(i as int, i + needle.len()) == needle@),
{
    let mut j: usize = 0;
    while j < needle.len()
        invariant
            i + needle.len() <= hay.len(),
            j <= needle.len(),
            forall|k: int| 0 <= k < j ==> hay@[i + k] == needle@[k],
        decreases needle.len() - j,
    {
        if hay[i + j] != needle[j] {
            assert(hay@.subrange(i as int, i + needle.len())[j as int] != needle@[j as int]);
            return false;
        }
        j = j + 1;
    }
    assert(hay@.subrange(i as int, i + needle.len()) =~= needle@);
    true
}

/// Whether `needle` occurs in `hay`.
pub fn contains(hay: &str, needle: &str) -> (b: bool)
    ensures
        b == contains_text(hay@, needle@),
{
    let h = chars_of(hay);
    let n = chars_of(needle);
    if n.len() > h.len() {
        return false;
    }
    let last = h.len() - n.len();
    let mut i: usize = 0;
    while i <= last
        invariant
            last == h.len() - n.len(),
            n.len() <= h.len(),
            h@ == hay@,
            n@ == needle@,
            forall|k: int| 0 <= k < i ==> #[trigger] h@.subrange(k, k + n.len()) != n@,
        decreases last + 1 - i,
    {
        if occurs_at(&h, &n, i) {
            return true;
        }
        if i == last {
            return false;
        }
        i = i + 1;
    }
    false
}

/// `c` is white space: std's `char::is_whitespace`, the Unicode `White_Space` property.
pub open spec fn is_white_space(c: char) -> bool {
    ||| '\t' <= c <= '\r'
    ||| c == ' '
    ||| c == '\u{85}'
    ||| c == '\u{a0}'
    ||| c == '\u{1680}'
    ||| '\u{2000}' <= c <= '\u{200a}'
    ||| c == '\u{2028}'
    ||| c == '\u{2029}'
    ||| c == '\u{202f}'
    ||| c == '\u{205f}'
    ||| c == '\u{3000}'
}

/// Whether `c` is white space.
pub fn white_space(c: char) -> (b: bool)
    ensures
        b == is_white_space(c),
{
    ('\t' <= c && c <= '\r') || c == ' ' || c == '\u{85}' || c == '\u{a0}' || c == '\u{1680}'
        || ('\u{2000}' <= c && c <= '\u{200a}') || c == '\u{2028}' || c == '\u{2029}'
        || c == '\u{202f}' || c == '\u{205f}' || c == '\u{3000}'
}

/// `s` without its leading white space.
pub open spec fn trim_start(s: Seq<char>) -> Seq<char>
    decreases s.len(),
{
    if s.len() > 0 && is_white_space(s[0]) {
        trim_start(s.drop_first())
    } else {
        s
    }
}

/// `s` without its trailing white space.
pub open spec fn trim_end(s: Seq<char>) -> Seq<char>
    decreases s.len(),
{
    if s.len() > 0 && is_white_space(s.last()) {
        trim_end(s.drop_last())
    } else {
        s
    }
}

/// `s` without leading and trailing white space.
pub open spec fn trimmed(s: Seq<char>) -> Seq<char> {
    trim_end(trim_start(s))
}

proof fn lemma_trim_start_skip(s: Seq<char>, i: int)
    requires
        0 <= i <= s.len(),
        forall|k: int| 0 <= k < i ==> is_white_space(#[trigger] s[k]),
    ensures
        trim_start(s) == trim_start(s.skip(i)),
    decreases i,
{
    if i > 0 {
        assert(s.skip(1) =~= s.drop_first());
        assert(s.drop_first().skip(i - 1) =~= s.skip(i));
        lemma_trim_start_skip(s.drop_first(), i - 1);
    } else {
        assert(s.skip(0) =~= s);
    }
}

proof fn lemma_trim_end_take(s: Seq<char>, j: int)
    requires
        0 <= j <= s.len(),
        forall|k: int| j <= k < s.len() ==> is_white_space(#[trigger] s[k]),
    ensures
        trim_end(s) == trim_end(s.take(j)),
    decreases s.len() - j,
{
    if j < s.len() {
        assert(s.drop_last().take(j) =~= s.take(j));
        lemma_trim_end_take(s.drop_last(), j);
    } else {
        assert(s.take(j) =~= s);
    }
}

/// Trimmed text has no white space at either end, so trimming it again changes nothing.
pub proof fn lemma_trimmed_is_trimmed(s: Seq<char>)
    ensures
        trimmed(s).len() > 0 ==> !is_white_space(trimmed(s)[0]) && !is_white_space(
            trimmed(s).last(),
        ),
        trimmed(trimmed(s)) == trimmed(s),
{
    let t = trim_start(s);
    lemma_trim_start_front(s);
    lemma_trim_end_prefix(t);
    let r = trim_end(t);
    if r.len() > 0 {
        assert(r[0] == t[0]);
        assert(trim_start(r) == r);
        assert(trim_end(r) == r);
    } else {
        assert(trim_start(r) == r);
    }
}

proof fn lemma_trim_start_front(s: Seq<char>)
    ensures
        trim_start(s).len() > 0 ==> !is_white_space(trim_start(s)[0]),
    decreases s.len(),
{
    if s.len() > 0 && is_white_space(s[0]) {
        lemma_trim_start_front(s.drop_first());
    }
}

proof fn lemma_trim_end_prefix(s: Seq<char>)
    ensures
        trim_end(s).len() <= s.len(),
        trim_end(s) == s.take(trim_end(s).len() as int),
        trim_end(s).len() > 0 ==> !is_white_space(trim_end(s).last()),
    decreases s.len(),
{
    if s.len() > 0 && is_white_space(s.last()) {
        lemma_trim_end_prefix(s.drop_last());
        assert(s.drop_last().take(trim_end(s).len() as int) =~= s.take(trim_end(s).len() as int));
    } else {
        assert(s.take(s.len() as int) =~= s);
    }
}

/// The characters of `s` without leading and trailing white space.
pub fn trim_chars(s: &Vec<char>) -> (t: Vec<char>)
    ensures
        t@ == trimmed(s@),
{
    let mut i: usize = 0;
    while i < s.len() && white_space(s[i])
        invariant
            i <= s.len(),
            forall|k: int| 0 <= k < i ==> is_white_space(#[trigger] s@[k]),
        decreases s.len() - i,
    {
        i = i + 1;
    }
    proof {
        lemma_trim_start_skip(s@, i as int);
    }
    let mut j: usize = s.len();
    while j > i && white_space(s[j - 1])
        invariant
            i <= j <= s.len(),
            forall|k: int| j <= k < s.len() ==> is_white_space(#[trigger] s@[k]),
        decreases j,
    {
        j = j - 1;
    }
    let mut t: Vec<char> = Vec::new();
    let mut k: usize = i;
    while k < j
        invariant
            i <= k <= j <= s.len(),
            t@ == s@.subrange(i as int, k as int),
        decreases j - k,
    {
        t.push(s[k]);
        k = k + 1;
        assert(t@ =~= s@.subrange(i as int, k as int));
    }
    proof {
        let rest = s@.skip(i as int);
        if i == s.len() {
            assert(rest =~= Seq::<char>::empty());
            assert(t@ =~= trimmed(s@));
        } else {
            assert(rest[0] == s@[i as int]);
            assert(trim_start(rest) == rest);
            assert forall|k: int| (j - i) <= k < rest.len() implies is_white_space(#[trigger] rest[k]) by {
                assert(rest[k] == s@[i + k]);
            }
            lemma_trim_end_take(rest, j - i);
            let kept = rest.take(j - i);
            assert(kept.last() == s@[j - 1]);
            assert(kept =~= t@);
        }
    }
    t
}

/// The length of the first line of `s`: the characters before the first line feed.
pub open spec fn first_line_len(s: Seq<char>) -> nat
    decreases s.len(),
{
    if s.len() == 0 || s[0] == '\n' {
        0
    } else {
        1 + first_line_len(s.drop_first())
    }
}

/// `line` without a carriage return at its end.
pub open spec fn without_cr(line: Seq<char>) -> Seq<char> {
    if line.len() > 0 && line.last() == '\r' {
        line.drop_last()
    } else {
        line
    }
}

/// The lines of `s`, as std's `str::lines` yields them: split at each line feed,
/// a carriage return just before a line feed dropped, and no empty line after a
/// final line feed. A last line without a line feed is kept whole.
pub open spec fn lines_of(s: Seq<char>) -> Seq<Seq<char>>
    decreases s.len(),
{
    if s.len() == 0 {
        seq![]
    } else {
        let k = first_line_len(s);
        if k < s.len() {
            seq![without_cr(s.take(k as int))] + lines_of(s.skip(k + 1 as int))
        } else {
            seq![s]
        }
    }
}

/// The pieces of `pieces` joined with `sep` between each two.
pub open spec fn joined(pieces: Seq<Seq<char>>, sep: char) -> Seq<char>
    decreases pieces.len(),
{
    if pieces.len() == 0 {
        seq![]
    } else if pieces.len() == 1 {
        pieces[0]
    } else {
        joined(pieces.drop_last(), sep).push(sep) + pieces.last()
    }
}

proof fn lemma_first_line_len(s: Seq<char>, k: int)
    requires
        0 <= k <= s.len(),
        forall|j: int| 0 <= j < k ==> s[j] != '\n',
        k == s.len() || s[k] == '\n',
    ensures
        first_line_len(s) == k,
    decreases k,
{
    if k > 0 {
        lemma_first_line_len(s.drop_first(), k - 1);
    }
}

/// A line holds nothing but white space.
pub open spec fn is_blank_line(line: Seq<char>) -> bool {
    forall|i: int| 0 <= i < line.len() ==> is_white_space(#[trigger] line[i])
}

/// Some line of `lines` is blank.
pub open spec fn has_blank_line(lines: Seq<Seq<char>>) -> bool {
    exists|i: int| 0 <= i < lines.len() && is_blank_line(#[trigger] lines[i])
}

/// The lines that follow the first blank line (none when no line is blank).
pub open spec fn after_first_blank(lines: Seq<Seq<char>>) -> Seq<Seq<char>>
    decreases lines.len(),
{
    if lines.len() == 0 {
        seq![]
    } else if is_blank_line(lines[0]) {
        lines.drop_first()
    } else {
        after_first_blank(lines.drop_first())
    }
}

proof fn lemma_after_first_blank_push(done: Seq<Seq<char>>, line: Seq<char>)
    ensures
        after_first_blank(done.push(line)) == (if has_blank_line(done) {
            after_first_blank(done).push(line)
        } else {
            Seq::<Seq<char>>::empty()
        }),
        !has_blank_line(done) ==> after_first_blank(done) == Seq::<Seq<char>>::empty(),
    decreases done.len(),
{
    let d = done.push(line);
    if done.len() == 0 {
        assert(d[0] == line);
        assert(d.drop_first() =~= Seq::<Seq<char>>::empty());
        assert(!has_blank_line(done));
        assert(after_first_blank(d.drop_first()) =~= Seq::<Seq<char>>::empty());
        assert(after_first_blank(d) =~= Seq::<Seq<char>>::empty());
    } else if is_blank_line(done[0]) {
        assert(d[0] == done[0]);
        assert(d.drop_first() =~= done.drop_first().push(line));
        assert(has_blank_line(done));
    } else {
        assert(d[0] == done[0]);
        assert(d.drop_first() =~= done.drop_first().push(line));
        lemma_after_first_blank_push(done.drop_first(), line);
        assert(after_first_blank(d) == after_first_blank(done.drop_first().push(line)));
        assert(after_first_blank(done) == after_first_blank(done.drop_first()));
        if has_blank_line(done) {
            let i = choose|i: int| 0 <= i < done.len() && is_blank_line(#[trigger] done[i]);
            assert(done.drop_first()[i - 1] == done[i]);
        }
        if has_blank_line(done.drop_first()) {
            let i = choose|i: int| 0 <= i < done.drop_first().len() && is_blank_line(
                #[trigger] done.drop_first()[i],
            );
            assert(done[i + 1] == done.drop_first()[i]);
        }
    }
}

proof fn lemma_joined_push(pieces: Seq<Seq<char>>, line: Seq<char>, sep: char)
    ensures
        joined(pieces.push(line), sep) == (if pieces.len() == 0 {
            line
        } else {
            joined(pieces, sep).push(sep) + line
        }),
{
    assert(pieces.push(line).drop_last() =~= pieces);
}

/// The body of a message: the lines after its first blank line, joined by line
/// feeds and without leading and trailing white space; `None` when no line is
/// blank or nothing but white space follows the first blank line.
pub open spec fn message_body(message: Seq<char>) -> Option<Seq<char>> {
    let rest = trimmed(joined(after_first_blank(lines_of(message)), '\n'));
    if rest.len() == 0 {
        None
    } else {
        Some(rest)
    }
}

/// Whether `line` holds nothing but white space.
fn blank_line(line: &Vec<char>) -> (b: bool)
    ensures
        b == is_blank_line(line@),
{
    let mut i: usize = 0;
    while i < line.len()
        invariant
            i <= line.len(),
            forall|k: int| 0 <= k < i ==> is_white_space(#[trigger] line@[k]),
        decreases line.len() - i,
    {
        if !white_space(line[i]) {
            return false;
        }
        i = i + 1;
    }
    true
}

/// The string of the characters `v`.
pub fn vec_to_string(v: &Vec<char>) -> (s: String)
    ensures
        s@ == v@,
{
    let mut s = String::new();
    let mut i: usize = 0;
    while i < v.len()
        invariant
            i <= v.len(),
            s@ == v@.take(i as int),
        decreases v.len() - i,
    {
        push_char(&mut s, v[i]);
        i = i + 1;
        assert(s@ =~= v@.take(i as int));
    }
    assert(v@.take(v.len() as int) =~= v@);
    s
}

/// Appends the characters `v` to `out`.
fn append_chars(out: &mut Vec<char>, v: &Vec<char>)
    ensures
        final(out)@ == old(out)@ + v@,
{
    let mut k: usize = 0;
    while k < v.len()
        invariant
            k <= v.len(),
            out@ == old(out)@ + v@.take(k as int),
        decreases v.len() - k,
    {
        out.push(v[k]);
        k = k + 1;
        assert(out@ =~= old(out)@ + v@.take(k as int));
    }
    assert(v@.take(v.len() as int) =~= v@);
}

/// The lines of `chars` after its first blank line, joined by line feeds.
fn lines_after_first_blank(chars: &Vec<char>) -> (out: Vec<char>)
    ensures
        out@ == joined(after_first_blank(lines_of(chars@)), '\n'),
{
    let ghost s = chars@;
    let ghost mut done: Seq<Seq<char>> = seq![];
    let mut out: Vec<char> = Vec::new();
    let mut cur: Vec<char> = Vec::new();
    let mut found = false;
    let mut taken: usize = 0;
    let mut start: usize = 0;
    let mut i: usize = 0;
    assert(s.skip(0) =~= s);
    while i < chars.len()
        invariant
            s == chars@,
            taken <= i,
            start <= i <= s.len(),
            cur@ == s.subrange(start as int, i as int),
            forall|j: int| start <= j < i ==> s[j] != '\n',
            done + lines_of(s.skip(start as int)) == lines_of(s),
            found == has_blank_line(done),
            taken == after_first_blank(done).len(),
            out@ == joined(after_first_blank(done), '\n'),
        decreases s.len() - i,
    {
        if chars[i] == '\n' {
            let ghost t = s.skip(start as int);
            proof {
                lemma_first_line_len(t, i - start);
                assert(t.take(i - start) =~= cur@);
                assert(t.skip(i - start + 1) =~= s.skip(i + 1));
            }
            let mut line = cur;
            if line.len() > 0 && line[line.len() - 1] == '\r' {
                line.pop();
            }
            let ghost l = line@;
            proof {
                assert(l == without_cr(cur@));
                assert(done + lines_of(t) =~= done.push(l) + lines_of(s.skip(i + 1)));
                lemma_after_first_blank_push(done, l);
                lemma_joined_push(after_first_blank(done), l, '\n');
                if !found && is_blank_line(l) {
                    assert(done.push(l)[done.len() as int] == l);
                }
                if found {
                    let k = choose|k: int| 0 <= k < done.len() && is_blank_line(#[trigger] done[k]);
                    assert(done.push(l)[k] == done[k]);
                } else if !is_blank_line(l) {
                    assert forall|k: int| 0 <= k < done.push(l).len() implies !is_blank_line(
                        #[trigger] done.push(l)[k],
                    ) by {
                        if k < done.len() {
                            assert(done.push(l)[k] == done[k]);
                        }
                    }
                }
            }
            if found {
                if taken > 0 {
                    out.push('\n');
                }
                append_chars(&mut out, &line);
                taken = taken + 1;
            } else if blank_line(&line) {
                found = true;
            }
            proof {
                done = done.push(l);
            }
            cur = Vec::new();
            start = i + 1;
        } else {
            cur.push(chars[i]);
        }
        i = i + 1;
        proof {
            assert(cur@ =~= s.subrange(start as int, i as int));
        }
    }
    if start < chars.len() {
        let ghost t = s.skip(start as int);
        proof {
            lemma_first_line_len(t, t.len() as int);
            assert(t =~= cur@);
        }
        let line = cur;
        let ghost l = line@;
        proof {
            assert(lines_of(t) == seq![l]);
            assert(done + lines_of(t) =~= done.push(l));
            lemma_after_first_blank_push(done, l);
            lemma_joined_push(after_first_blank(done), l, '\n');
        }
        if found {
            if taken > 0 {
                out.push('\n');
            }
            append_chars(&mut out, &line);
        }
        proof {
            done = done.push(l);
        }
    } else {
        proof {
            assert(s.skip(start as int) =~= Seq::<char>::empty());
            assert(done =~= lines_of(s));
        }
    }
    out
}

/// The body of a commit message: everything after its first blank line, trimmed;
/// `None` when there is no blank line or nothing follows it.
pub fn commit_body(message: &str) -> (body: Option<String>)
    ensures
        body matches Some(b) ==> message_body(message@) == Some(b@),
        body is None ==> message_body(message@) is None,
{
    let chars = chars_of(message);
    let rest = lines_after_first_blank(&chars);
    let kept = trim_chars(&rest);
    if kept.len() == 0 {
        None
    } else {
        Some(vec_to_string(&kept))
    }
}

/// What std's `str::to_lowercase` returns for a text.
pub uninterp spec fn lowercase_of(s: Seq<char>) -> Seq<char>;

/// The lowercase form of `s`.
///
/// Wraps std's `str::to_lowercase`; its result depends on the text alone and is
/// named `lowercase_of`, with nothing more said of it.
#[verifier::external_body]
pub(crate) fn lowercase(s: &str) -> (t: String)
    ensures
        t@ == lowercase_of(s@),
{
    s.to_lowercase()
}

/// `s` without all copies of `c` at its end.
pub open spec fn trim_trailing(s: Seq<char>, c: char) -> Seq<char>
    decreases s.len(),
{
    if s.len() > 0 && s.last() == c {
        trim_trailing(s.drop_last(), c)
    } else {
        s
    }
}

/// `s` without all copies of `c` at its end.
pub fn trim_trailing_char(s: &str, c: char) -> (t: String)
    ensures
        t@ == trim_trailing(s@, c),
{
    let mut v = chars_of(s);
    while v.len() > 0 && v[v.len() - 1] == c
        invariant
            trim_trailing(v@, c) == trim_trailing(s@, c),
        decreases v.len(),
    {
        let ghost before = v@;
        v.pop();
        assert(v@ =~= before.drop_last());
    }
    vec_to_string(&v)
}

/// `s` without all leading copies of the non-empty text `p`.
pub open spec fn trim_leading_text(s: Seq<char>, p: Seq<char>) -> Seq<char>
    decreases s.len(),
{
    if p.len() > 0 && p.len() <= s.len() && s.take(p.len() as int) == p {
        trim_leading_text(s.skip(p.len() as int), p)
    } else {
        s
    }
}

/// Once its leading copies of `p` are gone, a text no longer starts with `p`.
pub proof fn lemma_trim_leading_text_done(s: Seq<char>, p: Seq<char>)
    requires
        p.len() > 0,
    ensures
        !(p.len() <= trim_leading_text(s, p).len() && trim_leading_text(s, p).take(p.len() as int)
            == p),
    decreases s.len(),
{
    if p.len() <= s.len() && s.take(p.len() as int) == p {
        lemma_trim_leading_text_done(s.skip(p.len() as int), p);
    }
}

/// `s` without all leading copies of `p`.
pub fn trim_leading_copies(s: &str, p: &str) -> (t: String)
    ensures
        t@ == trim_leading_text(s@, p@),
{
    let v = chars_of(s);
    let pv = chars_of(p);
    let mut i: usize = 0;
    if pv.len() == 0 {
        return vec_to_string(&v);
    }
    assert(v@.skip(0) =~= v@);
    loop
        invariant
            i <= v.len(),
            pv.len() > 0,
            pv@ == p@,
            v@ == s@,
            trim_leading_text(v@.skip(i as int), p@) == trim_leading_text(s@, p@),
        ensures
            i <= v.len(),
            v@ == s@,
            trim_leading_text(v@.skip(i as int), p@) == trim_leading_text(s@, p@),
            trim_leading_text(v@.skip(i as int), p@) == v@.skip(i as int),
        decreases v.len() - i,
    {
        if pv.len() <= v.len() - i && occurs_at(&v, &pv, i) {
            proof {
                let rest = v@.skip(i as int);
                assert(rest.take(p@.len() as int) =~= v@.subrange(i as int, i + pv.len()));
                assert(rest.skip(p@.len() as int) =~= v@.skip(i + pv.len()));
            }
            i = i + pv.len();
        } else {
            proof {
                let rest = v@.skip(i as int);
                if p@.len() <= rest.len() {
                    assert(rest.take(p@.len() as int) =~= v@.subrange(i as int, i + pv.len()));
                }
                assert(trim_leading_text(rest, p@) == rest);
            }
            break;
        }
    }
    let mut t = String::new();
    let mut k: usize = i;
    while k < v.len()
        invariant
            i <= k <= v.len(),
            t@ == v@.subrange(i as int, k as int),
        decreases v.len() - k,
    {
        push_char(&mut t, v[k]);
        k = k + 1;
        assert(t@ =~= v@.subrange(i as int, k as int));
    }
    assert(v@.subrange(i as int, v.len() as int) =~= v@.skip(i as int));
    t
}

/// Whether `a` and `b` hold the same text.
pub fn same_text(a: &str, b: &str) -> (eq: bool)
    ensures
        eq == (a@ == b@),
{
    let x = chars_of(a);
    let y = chars_of(b);
    if x.len() != y.len() {
        return false;
    }
    let mut i: usize = 0;
    while i < x.len()
        invariant
            x@ == a@,
            y@ == b@,
            x.len() == y.len(),
            i <= x.len(),
            forall|k: int| 0 <= k < i ==> x@[k] == y@[k],
        decreases x.len() - i,
    {
        if x[i] != y[i] {
            assert(a@[i as int] != b@[i as int]);
            return false;
        }
        i = i + 1;
    }
    assert(x@ =~= y@);
    true
}

/// Appends `t` to `s`, followed by spaces to fill `width` characters.
pub fn push_padded_right(s: &mut String, t: &str, width: usize)
    ensures
        final(s)@ == old(s)@ + padded_right(t@, width as nat),
{
    let len = t.unicode_len();
    s.append(t);
    if len < width {
        push_repeated(s, ' ', width - len);
    }
    proof {
        assert(final(s)@ =~= old(s)@ + padded_right(t@, width as nat)) by {
            if len >= width {
                assert(padded_right(t@, width as nat) == t@);
            }
        }
    }
}

/// Appends `t` to `s`, preceded by copies of `fill` to fill `width` characters.
pub fn push_padded_left(s: &mut String, t: &str, width: usize, fill: char)
    ensures
        final(s)@ == old(s)@ + padded_left(t@, width as nat, fill),
{
    let len = t.unicode_len();
    if len < width {
        push_repeated(s, fill, width - len);
    }
    s.append(t);
    proof {
        assert(final(s)@ =~= old(s)@ + padded_left(t@, width as nat, fill));
    }
}

/// `a` comes before `b` in the lexicographic order of their bytes.
pub open spec fn bytes_before(a: Seq<u8>, b: Seq<u8>) -> bool
    decreases a.len(),
{
    if a.len() == 0 {
        b.len() > 0
    } else if b.len() == 0 {
        false
    } else if a[0] != b[0] {
        a[0] < b[0]
    } else {
        bytes_before(a.drop_first(), b.drop_first())
    }
}

/// `a` orders before `b` as std orders strings: by their UTF-8 bytes.
pub open spec fn text_before(a: Seq<char>, b: Seq<char>) -> bool {
    bytes_before(encode_utf8(a), encode_utf8(b))
}

proof fn lemma_bytes_before_skip(a: Seq<u8>, b: Seq<u8>, i: int)
    requires
        0 <= i <= a.len(),
        i <= b.len(),
        a.take(i) == b.take(i),
    ensures
        bytes_before(a, b) == bytes_before(a.skip(i), b.skip(i)),
    decreases i,
{
    if i > 0 {
        assert(a[0] == a.take(i)[0]);
        assert(b[0] == b.take(i)[0]);
        assert(a.drop_first().take(i - 1) =~= a.take(i).drop_first());
        assert(b.drop_first().take(i - 1) =~= b.take(i).drop_first());
        lemma_bytes_before_skip(a.drop_first(), b.drop_first(), i - 1);
        assert(a.drop_first().skip(i - 1) =~= a.skip(i));
        assert(b.drop_first().skip(i - 1) =~= b.skip(i));
    } else {
        assert(a.skip(0) =~= a);
        assert(b.skip(0) =~= b);
    }
}

/// No text comes before itself.
pub proof fn lemma_bytes_before_irreflexive(a: Seq<u8>)
    ensures
        !bytes_before(a, a),
    decreases a.len(),
{
    if a.len() > 0 {
        lemma_bytes_before_irreflexive(a.drop_first());
    }
}

/// The byte order is transitive.
pub proof fn lemma_bytes_before_transitive(a: Seq<u8>, b: Seq<u8>, c: Seq<u8>)
    requires
        bytes_before(a, b),
        bytes_before(b, c),
    ensures
        bytes_before(a, c),
    decreases a.len(),
{
    if a.len() > 0 && b.len() > 0 && c.len() > 0 && a[0] == b[0] && b[0] == c[0] {
        lemma_bytes_before_transitive(a.drop_first(), b.drop_first(), c.drop_first());
    }
}

/// Of two different byte sequences, one comes before the other.
pub proof fn lemma_bytes_before_total(a: Seq<u8>, b: Seq<u8>)
    requires
        a != b,
    ensures
        bytes_before(a, b) || bytes_before(b, a),
    decreases a.len(),
{
    if a.len() > 0 && b.len() > 0 && a[0] == b[0] {
        if a.drop_first() == b.drop_first() {
            assert(a =~= seq![a[0]] + a.drop_first());
            assert(b =~= seq![b[0]] + b.drop_first());
        }
        lemma_bytes_before_total(a.drop_first(), b.drop_first());
    } else if a.len() == 0 && b.len() == 0 {
        assert(a =~= b);
    }
}

/// The order of texts is a strict total order.
pub proof fn lemma_text_before_order(a: Seq<char>, b: Seq<char>, c: Seq<char>)
    ensures
        !text_before(a, a),
        text_before(a, b) && text_before(b, c) ==> text_before(a, c),
        a != b ==> text_before(a, b) || text_before(b, a),
{
    lemma_bytes_before_irreflexive(encode_utf8(a));
    if text_before(a, b) && text_before(b, c) {
        lemma_bytes_before_transitive(encode_utf8(a), encode_utf8(b), encode_utf8(c));
    }
    if a != b {
        encode_utf8_decode_utf8(a);
        encode_utf8_decode_utf8(b);
        lemma_bytes_before_total(encode_utf8(a), encode_utf8(b));
    }
}

/// Whether `a` orders before `b` as std orders strings.
pub fn text_less(a: &str, b: &str) -> (lt: bool)
    ensures
        lt == text_before(a@, b@),
{
    let x = a.as_bytes();
    let y = b.as_bytes();
    let mut i: usize = 0;
    while i < x.len() && i < y.len() && x[i] == y[i]
        invariant
            x@ == a.spec_bytes(),
            y@ == b.spec_bytes(),
            i <= x.len(),
            i <= y.len(),
            x@.take(i as int) == y@.take(i as int),
        decreases x.len() - i,
    {
        assert(x@.take(i + 1) =~= x@.take(i as int).push(x@[i as int]));
        assert(y@.take(i + 1) =~= y@.take(i as int).push(y@[i as int]));
        i = i + 1;
    }
    proof {
        lemma_bytes_before_skip(x@, y@, i as int);
    }
    if i == x.len() {
        i < y.len()
    } else if i == y.len() {
        false
    } else {
        x[i] < y[i]
    }
}

/// The text that `bytes` encode in UTF-8, or `None` when they are not valid UTF-8.
///
/// Wraps std's `str::from_utf8`, which std documents as succeeding exactly on valid
/// UTF-8, with the decoded text.
#[verifier::external_body]
pub(crate) fn utf8_text(bytes: &[u8]) -> (t: Option<&str>)
    ensures
        t is Some <==> valid_utf8(bytes@),
        t matches Some(s) ==> s@ == decode_utf8(bytes@),
{
    match std::str::from_utf8(bytes) {
        Ok(s) => Some(s),
        Err(_) => None,
    }
}

/// The ellipsis that marks shortened text.
pub open spec fn ellipsis() -> char {
    '\u{2026}'
}

/// Where `truncate` cuts a text longer than `max` bytes: one byte short of `max`.
pub open spec fn truncation_cut(max: usize) -> int {
    if max == 0 { 0 } else { max - 1 }
}

/// `truncate` can cut `s` for `max`: it is short enough to keep, or the cut lands on a
/// character boundary.
pub open spec fn can_truncate(s: Seq<char>, max: usize) -> bool {
    &&& encode_utf8(s).len() <= usize::MAX
    &&& encode_utf8(s).len() <= max || is_char_boundary(encode_utf8(s), truncation_cut(max))
}

/// `s` kept whole when its UTF-8 encoding fits in `max` bytes; otherwise its first
/// `max - 1` bytes followed by an ellipsis.
pub open spec fn truncated(s: Seq<char>, max: usize) -> Seq<char> {
    if encode_utf8(s).len() <= max {
        s
    } else {
        decode_utf8(encode_utf8(s).take(truncation_cut(max))).push(ellipsis())
    }
}

/// A text has no more characters than its UTF-8 encoding has bytes.
proof fn lemma_encode_utf8_len(s: Seq<char>)
    ensures
        s.len() <= encode_utf8(s).len(),
    decreases s.len(),
{
    if s.len() > 0 {
        lemma_encode_utf8_len(s.drop_first());
    }
}

/// A shortened text fits a column of `max` characters, for any `max` of at least 1.
pub proof fn lemma_truncated_fits(s: Seq<char>, max: usize)
    requires
        can_truncate(s, max),
        max >= 1,
    ensures
        truncated(s, max).len() <= max,
{
    lemma_encode_utf8_len(s);
    if encode_utf8(s).len() > max {
        let bytes = encode_utf8(s);
        let k = truncation_cut(max);
        encode_utf8_valid_utf8(s);
        valid_utf8_split(bytes, k);
        assert(bytes.subrange(0, k) =~= bytes.take(k));
        let head = decode_utf8(bytes.take(k));
        decode_utf8_encode_utf8(bytes.take(k));
        lemma_encode_utf8_len(head);
    }
}

proof fn lemma_encode_utf8_push(x: Seq<char>, c: char)
    ensures
        encode_utf8(x.push(c)) == encode_utf8(x) + encode_scalar(c as u32),
    decreases x.len(),
{
    if x.len() == 0 {
        assert(x.push(c).drop_first() =~= Seq::<char>::empty());
        assert(x.push(c)[0] == c);
        assert(encode_utf8(x.push(c).drop_first()) =~= Seq::<u8>::empty());
        assert(encode_utf8(x) =~= Seq::<u8>::empty());
        assert(encode_utf8(x.push(c)) =~= encode_scalar(c as u32));
    } else {
        assert(x.push(c).drop_first() =~= x.drop_first().push(c));
        assert(x.push(c)[0] == x[0]);
        lemma_encode_utf8_push(x.drop_first(), c);
        assert(encode_utf8(x.push(c)) =~= encode_utf8(x) + encode_scalar(c as u32));
    }
}

/// The ellipsis takes three bytes, the first of which starts a character.
proof fn lemma_ellipsis_encoding()
    ensures
        encode_scalar(ellipsis() as u32).len() == 3,
        !is_continuation_byte(encode_scalar(ellipsis() as u32)[0]),
{
    let v: u32 = 0x2026;
    assert(ellipsis() as u32 == v);
    assert(has_width_3_encoding(v));
    assert(leading_byte_width_3(v) == 0xe2u8) by (bit_vector)
        requires
            v == 0x2026u32,
    ;
}

/// Shortening a shortened text changes nothing: the shortened text can be cut for
/// the same width, and cutting it gives it back. The one case left out is a text
/// longer than a width within two of the largest `usize`, whose shortened form
/// would be longer than any `usize` can count.
pub proof fn lemma_truncate_idempotent(s: Seq<char>, max: usize)
    requires
        can_truncate(s, max),
        encode_utf8(s).len() <= max || max < usize::MAX - 1,
    ensures
        can_truncate(truncated(s, max), max),
        truncated(truncated(s, max), max) == truncated(s, max),
{
    let b = encode_utf8(s);
    if b.len() > max {
        let k = truncation_cut(max);
        encode_utf8_valid_utf8(s);
        valid_utf8_split(b, k);
        assert(b.subrange(0, k) =~= b.take(k));
        let h = decode_utf8(b.take(k));
        decode_utf8_encode_utf8(b.take(k));
        let t = h.push(ellipsis());
        lemma_encode_utf8_push(h, ellipsis());
        lemma_ellipsis_encoding();
        let bt = encode_utf8(t);
        assert(bt.len() == k + 3);
        encode_utf8_valid_utf8(t);
        assert(bt[k] == encode_scalar(ellipsis() as u32)[0]);
        is_char_boundary_iff_not_is_continuation_byte(bt, k);
        assert(bt.take(k) =~= encode_utf8(h));
        encode_utf8_decode_utf8(h);
    }
}

/// Shortens `s` to at most `max` bytes of text plus an ellipsis.
///
/// Lengths are counted in bytes of the UTF-8 encoding; the cut must fall on a
/// character boundary.
pub fn truncate(s: &str, max: usize) -> (t: String)
    requires
        can_truncate(s@, max),
    ensures
        t@ == truncated(s@, max),
{
    if s.len() <= max {
        s.to_owned()
    } else {
        let (head, _) = s.split_at(max.saturating_sub(1));
        proof {
            encode_utf8_decode_utf8(head@);
            assert(head.spec_bytes() =~= s.spec_bytes().take(truncation_cut(max)));
            assert(head@ == decode_utf8(s.spec_bytes().take(truncation_cut(max))));
        }
        let mut t = head.to_owned();
        push_char(&mut t, '\u{2026}');
        t
    }
}

} // verus!
