use vstd::prelude::*;
use vstd::string::*;
use crate::page::{convert_image_paths_in_text, image_views, spec_scan, ImageNameTransform};

verus! {

/// What `char::is_whitespace` holds of a character; it depends on the
/// character alone.
pub uninterp spec fn is_space(c: char) -> bool;

/// Relies on std's `char::is_whitespace`: the Unicode white-space property
/// of the character.
#[verifier::external_body]
pub(crate) fn is_space_char(c: char) -> (r: bool)
    ensures
        r == is_space(c),
{
    c.is_whitespace()
}

/// Relies on std's `FromIterator` for `String`: collecting characters yields
/// the string of exactly those characters in order.
#[verifier::external_body]
pub(crate) fn chars_to_string(chars: &Vec<char>) -> (r: String)
    ensures
        r@ == chars@,
{
    chars.iter().collect()
}

/// The characters of a string, one by one.
pub(crate) fn str_to_chars(s: &str) -> (r: Vec<char>)
    ensures
        r@ == s@,
{
    let n = s.unicode_len();
    let mut out: Vec<char> = Vec::new();
    let mut i: usize = 0;
    proof {
        assert(out@ =~= s@.take(0));
    }
    while i < n
        invariant
            i <= n,
            n == s@.len(),
            out@ == s@.take(i as int),
        decreases n - i,
    {
        let c = s.get_char(i);
        out.push(c);
        proof {
            assert(out@ =~= s@.take(i as int + 1));
        }
        i += 1;
    }
    proof {
        assert(s@.take(n as int) =~= s@);
    }
    out
}

/// A copy of the characters between two positions.
pub(crate) fn char_slice(v: &Vec<char>, lo: usize, hi: usize) -> (r: Vec<char>)
    requires
        lo <= hi <= v@.len(),
    ensures
        r@ == v@.subrange(lo as int, hi as int),
{
    let mut out: Vec<char> = Vec::new();
    let mut i = lo;
    proof {
        assert(out@ =~= v@.subrange(lo as int, lo as int));
    }
    while i < hi
        invariant
            lo <= i <= hi <= v@.len(),
            out@ == v@.subrange(lo as int, i as int),
        decreases hi - i,
    {
        let c = v[i];
        out.push(c);
        proof {
            assert(out@ =~= v@.subrange(lo as int, i as int + 1));
        }
        i += 1;
    }
    out
}

/// The sequence without its leading white space.
pub open spec fn trim_front(s: Seq<char>) -> Seq<char>
    decreases s.len(),
{
    if s.len() > 0 && is_space(s[0]) {
        trim_front(s.drop_first())
    } else {
        s
    }
}

/// The sequence without its trailing white space.
pub open spec fn trim_back(s: Seq<char>) -> Seq<char>
    decreases s.len(),
{
    if s.len() > 0 && is_space(s.last()) {
        trim_back(s.drop_last())
    } else {
        s
    }
}

/// The sequence without leading and trailing white space.
pub open spec fn trim_of(s: Seq<char>) -> Seq<char> {
    trim_back(trim_front(s))
}

proof fn lemma_trim_front_skip(s: Seq<char>, i: int)
    requires
        0 <= i <= s.len(),
        forall|k: int| 0 <= k < i ==> is_space(s[k]),
        i < s.len() ==> !is_space(s[i]),
    ensures
        trim_front(s) == s.skip(i),
    decreases i,
{
    if i == 0 {
        assert(s.skip(0) =~= s);
    } else {
        lemma_trim_front_skip(s.drop_first(), i - 1);
        assert(s.drop_first().skip(i - 1) =~= s.skip(i));
    }
}

proof fn lemma_trim_back_take(s: Seq<char>, i: int)
    requires
        0 <= i <= s.len(),
        forall|k: int| i <= k < s.len() ==> is_space(s[k]),
        i > 0 ==> !is_space(s[i - 1]),
    ensures
        trim_back(s) == s.take(i),
    decreases s.len() - i,
{
    if i == s.len() {
        assert(s.take(i) =~= s);
    } else {
        lemma_trim_back_take(s.drop_last(), i);
        assert(s.drop_last().take(i) =~= s.take(i));
    }
}

/// The characters between the first and the last non-white-space character.
pub(crate) fn trim_chars(v: &Vec<char>) -> (r: Vec<char>)
    ensures
        r@ == trim_of(v@),
{
    let n = v.len();
    let mut lo: usize = 0;
    while lo < n
        invariant_except_break
            lo <= n,
            n == v@.len(),
            forall|k: int| 0 <= k < lo ==> is_space(v@[k]),
        ensures
            lo <= n,
            n == v@.len(),
            forall|k: int| 0 <= k < lo ==> is_space(v@[k]),
            lo < n ==> !is_space(v@[lo as int]),
        decreases n - lo,
    {
        if !is_space_char(v[lo]) {
            break;
        }
        lo += 1;
    }
    let mut hi: usize = n;
    while hi > lo
        invariant_except_break
            lo <= hi <= n,
            n == v@.len(),
            forall|k: int| hi <= k < n ==> is_space(v@[k]),
        ensures
            lo <= hi <= n,
            n == v@.len(),
            forall|k: int| hi <= k < n ==> is_space(v@[k]),
            hi > lo ==> !is_space(v@[hi - 1]),
        decreases hi,
    {
        if !is_space_char(v[hi - 1]) {
            break;
        }
        hi -= 1;
    }
    proof {
        lemma_trim_front_skip(v@, lo as int);
        let t = v@.skip(lo as int);
        assert forall|k: int| (hi - lo) <= k < t.len() implies is_space(t[k]) by {
            assert(t[k] == v@[k + lo]);
        }
        if hi > lo {
            assert(t[hi - lo - 1] == v@[hi - 1]);
        }
        lemma_trim_back_take(t, hi - lo);
        assert(t.take(hi - lo) =~= v@.subrange(lo as int, hi as int));
    }
    char_slice(v, lo, hi)
}

/// What one character shows as in rendered text: the five HTML
/// metacharacters as their entities, everything else as itself.
pub open spec fn escape_char(c: char) -> Seq<char> {
    if c == '>' {
        seq!['&', 'g', 't', ';']
    } else if c == '<' {
        seq!['&', 'l', 't', ';']
    } else if c == '&' {
        seq!['&', 'a', 'm', 'p', ';']
    } else if c == '\'' {
        seq!['&', '#', '3', '9', ';']
    } else if c == '"' {
        seq!['&', 'q', 'u', 'o', 't', ';']
    } else {
        seq![c]
    }
}

/// A text with every HTML metacharacter replaced by its entity.
pub open spec fn escape_text(s: Seq<char>) -> Seq<char>
    decreases s.len(),
{
    if s.len() == 0 {
        Seq::empty()
    } else {
        escape_char(s[0]) + escape_text(s.drop_first())
    }
}

proof fn lemma_escape_text_push(s: Seq<char>, c: char)
    ensures
        escape_text(s.push(c)) == escape_text(s) + escape_char(c),
    decreases s.len(),
{
    if s.len() == 0 {
        assert(s.push(c)[0] == c);
        assert(s.push(c).drop_first() =~= Seq::<char>::empty());
        assert(escape_text(Seq::<char>::empty()) =~= Seq::<char>::empty());
        assert(escape_text(s.push(c)) =~= escape_text(s) + escape_char(c));
    } else {
        assert(s.push(c)[0] == s[0]);
        assert(s.push(c).drop_first() =~= s.drop_first().push(c));
        lemma_escape_text_push(s.drop_first(), c);
        assert(escape_char(s[0]) + (escape_text(s.drop_first()) + escape_char(c)) =~= (escape_char(
            s[0],
        ) + escape_text(s.drop_first())) + escape_char(c));
    }
}

/// Escapes the five HTML metacharacters of a text; everything else passes
/// through unchanged.
pub fn escape(raw: &str) -> (r: String)
    ensures
        r@ == escape_text(raw@),
{
    let chars = str_to_chars(raw);
    let n = chars.len();
    let mut out: Vec<char> = Vec::new();
    let mut i: usize = 0;
    proof {
        assert(chars@.take(0) =~= Seq::<char>::empty());
        assert(out@ =~= escape_text(chars@.take(0)));
    }
    while i < n
        invariant
            i <= n,
            n == chars@.len(),
            chars@ == raw@,
            out@ == escape_text(chars@.take(i as int)),
        decreases n - i,
    {
        let ghost before = out@;
        let c = chars[i];
        match c {
            '>' => {
                out.push('&');
                out.push('g');
                out.push('t');
                out.push(';');
            },
            '<' => {
                out.push('&');
                out.push('l');
                out.push('t');
                out.push(';');
            },
            '&' => {
                out.push('&');
                out.push('a');
                out.push('m');
                out.push('p');
                out.push(';');
            },
            '\'' => {
                out.push('&');
                out.push('#');
                out.push('3');
                out.push('9');
                out.push(';');
            },
            '"' => {
                out.push('&');
                out.push('q');
                out.push('u');
                out.push('o');
                out.push('t');
                out.push(';');
            },
            _ => {
                out.push(c);
            },
        }
        proof {
            assert(out@ =~= before + escape_char(c));
            assert(chars@.take(i as int + 1) =~= chars@.take(i as int).push(c));
            lemma_escape_text_push(chars@.take(i as int), c);
        }
        i += 1;
    }
    proof {
        assert(chars@.take(n as int) =~= raw@);
    }
    chars_to_string(&out)
}

/// The character showing a single decimal digit.
pub open spec fn digit_char(d: int) -> char {
    if d == 0 {
        '0'
    } else if d == 1 {
        '1'
    } else if d == 2 {
        '2'
    } else if d == 3 {
        '3'
    } else if d == 4 {
        '4'
    } else if d == 5 {
        '5'
    } else if d == 6 {
        '6'
    } else if d == 7 {
        '7'
    } else if d == 8 {
        '8'
    } else {
        '9'
    }
}

pub(crate) fn digit_to_char(d: u32) -> (c: char)
    requires
        d < 10,
    ensures
        c == digit_char(d as int),
{
    match d {
        0 => '0',
        1 => '1',
        2 => '2',
        3 => '3',
        4 => '4',
        5 => '5',
        6 => '6',
        7 => '7',
        8 => '8',
        _ => '9',
    }
}

pub(crate) fn push_all(out: &mut Vec<char>, v: &Vec<char>)
    ensures
        final(out)@ == old(out)@ + v@,
{
    let mut i: usize = 0;
    proof {
        assert(out@ =~= old(out)@ + v@.take(0));
    }
    while i < v.len()
        invariant
            i <= v@.len(),
            out@ == old(out)@ + v@.take(i as int),
        decreases v@.len() - i,
    {
        let c = v[i];
        out.push(c);
        proof {
            assert(out@ =~= old(out)@ + v@.take(i as int + 1));
        }
        i += 1;
    }
    proof {
        assert(v@.take(v@.len() as int) =~= v@);
    }
}

/// Why an edited page text is rejected.
#[derive(Clone, Copy, PartialEq, Eq, Structural, Debug)]
pub enum ParsePageError {
    /// The whole text is blank: the edit was cancelled.
    Cancelled,
    /// The first line, the title, is blank.
    EmptyTitle,
}

/// Position of the first line break at or after `i`, or the length when the
/// text is a single line.
pub open spec fn first_nl_from(s: Seq<char>, i: int) -> int
    decreases s.len() - i,
{
    if i < 0 || i >= s.len() {
        s.len() as int
    } else if s[i] == '\n' {
        i
    } else {
        first_nl_from(s, i + 1)
    }
}

/// The title of an edited text: its first line, trimmed.
pub open spec fn title_of(s: Seq<char>) -> Seq<char> {
    trim_of(s.take(first_nl_from(s, 0)))
}

/// The body of an edited text: everything after the first line break,
/// trimmed; empty for a single-line text.
pub open spec fn body_of(s: Seq<char>) -> Seq<char> {
    if first_nl_from(s, 0) < s.len() {
        trim_of(s.skip(first_nl_from(s, 0) + 1))
    } else {
        Seq::empty()
    }
}

fn find_nl(v: &Vec<char>) -> (r: usize)
    ensures
        r == first_nl_from(v@, 0),
        r <= v@.len(),
{
    let n = v.len();
    let mut j: usize = 0;
    while j < n
        invariant
            j <= n,
            n == v@.len(),
            first_nl_from(v@, 0) == first_nl_from(v@, j as int),
        decreases n - j,
    {
        let c = v[j];
        if c == '\n' {
            return j;
        }
        j += 1;
    }
    n
}

/// Splits an edited page text into its parts: the first line is the title,
/// the rest is the body, and every image reference in the body is renamed to
/// carry the given prefix unless it already does, each renamed file
/// reported. A blank text or a blank title is rejected.
pub fn parse_page(text: &str, image_prefix: &str) -> (r: Result<
    (String, String, Vec<(String, String)>),
    ParsePageError,
>)
    ensures
        match r {
            Ok(out) => {
                &&& trim_of(text@).len() != 0
                &&& title_of(text@).len() != 0
                &&& out.0@ == title_of(text@)
                &&& out.1@ == spec_scan(body_of(text@), 0, (true, image_prefix@)).0
                &&& image_views(out.2@) == spec_scan(body_of(text@), 0, (true, image_prefix@)).1
            },
            Err(ParsePageError::Cancelled) => trim_of(text@).len() == 0,
            Err(ParsePageError::EmptyTitle) => trim_of(text@).len() != 0 && title_of(text@).len()
                == 0,
        },
{
    let chars = str_to_chars(text);
    let whole_trimmed = trim_chars(&chars);
    if whole_trimmed.len() == 0 {
        return Err(ParsePageError::Cancelled);
    }
    let nl = find_nl(&chars);
    let title_chars = char_slice(&chars, 0, nl);
    proof {
        assert(chars@.subrange(0, nl as int) =~= chars@.take(nl as int));
    }
    let title_trimmed = trim_chars(&title_chars);
    if title_trimmed.len() == 0 {
        return Err(ParsePageError::EmptyTitle);
    }
    let body_chars = if nl < chars.len() {
        char_slice(&chars, nl + 1, chars.len())
    } else {
        Vec::new()
    };
    proof {
        if nl < chars@.len() {
            assert(chars@.subrange(nl as int + 1, chars@.len() as int) =~= chars@.skip(
                nl as int + 1,
            ));
        } else {
            assert(body_chars@ =~= Seq::<char>::empty());
            assert(trim_front(Seq::<char>::empty()) =~= Seq::<char>::empty());
        }
    }
    let body_trimmed = trim_chars(&body_chars);
    let body_str = chars_to_string(&body_trimmed);
    let transform = ImageNameTransform::PrefixIfMissing { prefix: image_prefix.to_owned() };
    let (converted, images) = convert_image_paths_in_text(body_str.as_str(), &transform);
    let title_str = chars_to_string(&title_trimmed);
    Ok((title_str, converted, images))
}

/// The characters that may separate date fields.
pub open spec fn is_date_sep(c: char) -> bool {
    c == '/' || c == '-'
}

/// Position of the first date separator at or after `i`, or the length.
pub open spec fn find_sep(s: Seq<char>, i: int) -> int
    decreases s.len() - i,
{
    if i < 0 || i >= s.len() {
        s.len() as int
    } else if is_date_sep(s[i]) {
        i
    } else {
        find_sep(s, i + 1)
    }
}

/// The pieces of a text between its date separators; a separator at either
/// end or two adjacent ones leave an empty piece.
pub open spec fn split_seps(s: Seq<char>) -> Seq<Seq<char>>
    decreases s.len(),
{
    let j = find_sep(s, 0);
    if j < 0 || j >= s.len() {
        seq![s]
    } else {
        seq![s.take(j)] + split_seps(s.skip(j + 1))
    }
}

/// Whether the character is a decimal digit.
pub open spec fn is_digit(c: char) -> bool {
    48 <= (c as u32) && (c as u32) <= 57
}

/// The value of a decimal digit character.
pub open spec fn digit_val(c: char) -> int {
    (c as u32) - 48
}

/// Whether the text is one or more decimal digits.
pub open spec fn all_digits(s: Seq<char>) -> bool {
    s.len() > 0 && forall|i: int| 0 <= i < s.len() ==> is_digit(#[trigger] s[i])
}

/// The number the decimal digits spell.
pub open spec fn digits_value(s: Seq<char>) -> int
    decreases s.len(),
{
    if s.len() == 0 {
        0
    } else {
        digits_value(s.drop_last()) * 10 + digit_val(s.last())
    }
}

/// What `str::parse::<u32>` makes of a text: an optional leading plus sign,
/// then decimal digits whose value fits.
pub open spec fn parse_u32_spec(s: Seq<char>) -> Option<u32> {
    let body = if s.len() >= 1 && s[0] == '+' {
        s.drop_first()
    } else {
        s
    };
    if !all_digits(body) {
        Option::None
    } else if digits_value(body) > u32::MAX {
        Option::None
    } else {
        Option::Some(digits_value(body) as u32)
    }
}

proof fn lemma_digits_value_nonneg(s: Seq<char>)
    requires
        forall|i: int| 0 <= i < s.len() ==> is_digit(#[trigger] s[i]),
    ensures
        digits_value(s) >= 0,
    decreases s.len(),
{
    if s.len() > 0 {
        lemma_digits_value_nonneg(s.drop_last());
    }
}

proof fn lemma_digits_value_mono(s: Seq<char>, k: int)
    requires
        0 <= k <= s.len(),
        forall|i: int| 0 <= i < s.len() ==> is_digit(#[trigger] s[i]),
    ensures
        digits_value(s) >= digits_value(s.take(k)),
    decreases s.len(),
{
    lemma_digits_value_nonneg(s);
    if k < s.len() {
        assert forall|i: int| 0 <= i < s.drop_last().len() implies is_digit(
            #[trigger] s.drop_last()[i],
        ) by {
            assert(s.drop_last()[i] == s[i]);
        }
        lemma_digits_value_nonneg(s.drop_last());
        lemma_digits_value_mono(s.drop_last(), k);
        assert(s.drop_last().take(k) =~= s.take(k));
        assert(digits_value(s) == digits_value(s.drop_last()) * 10 + digit_val(s.last()));
        assert(digits_value(s.drop_last()) * 10 >= digits_value(s.drop_last()));
    } else {
        assert(s.take(k) =~= s);
    }
}

/// Parses one or more decimal digits after an optional plus sign, rejecting
/// anything else or a value over the unsigned 32-bit range.
fn parse_u32_chars(v: &Vec<char>) -> (r: Option<u32>)
    ensures
        r == parse_u32_spec(v@),
{
    let n = v.len();
    let mut start: usize = 0;
    if n >= 1 {
        let c0 = v[0];
        if c0 == '+' {
            start = 1;
        }
    }
    let ghost body = if v@.len() >= 1 && v@[0] == '+' {
        v@.drop_first()
    } else {
        v@
    };
    proof {
        assert(body =~= v@.subrange(start as int, n as int));
    }
    if start >= n {
        proof {
            assert(body.len() == 0);
        }
        return None;
    }
    let mut acc: u64 = 0;
    let mut i = start;
    proof {
        assert(body.take(0) =~= Seq::<char>::empty());
    }
    while i < n
        invariant
            start <= i <= n,
            n == v@.len(),
            start <= 1,
            body == v@.subrange(start as int, n as int),
            body == (if v@.len() >= 1 && v@[0] == '+' {
                v@.drop_first()
            } else {
                v@
            }),
            acc as int == digits_value(body.take(i - start)),
            acc <= u32::MAX,
            forall|k: int| 0 <= k < i - start ==> is_digit(#[trigger] body[k]),
        decreases n - i,
    {
        let c = v[i];
        let cu = c as u32;
        proof {
            assert(body[i - start] == v@[i as int]);
        }
        if cu < 48 || cu > 57 {
            proof {
                assert(!is_digit(body[i - start]));
            }
            return None;
        }
        let ghost old_acc = acc as int;
        proof {
            assert(is_digit(body[i - start]));
            assert(digit_val(body[i - start]) == cu as int - 48);
            assert(body.take(i - start + 1).drop_last() =~= body.take(i - start));
            assert(body.take(i - start + 1).last() == body[i - start]);
        }
        acc = acc * 10 + (cu - 48) as u64;
        proof {
            assert(acc as int == old_acc * 10 + digit_val(body[i - start]));
            assert(acc as int == digits_value(body.take(i - start + 1)));
        }
        if acc > 0xFFFF_FFFF {
            proof {
                if all_digits(body) {
                    lemma_digits_value_mono(body, i - start + 1);
                    assert(digits_value(body) > u32::MAX);
                }
            }
            return None;
        }
        i += 1;
    }
    proof {
        assert(body.take(n - start) =~= body);
        assert(all_digits(body));
    }
    Some(acc as u32)
}

fn find_sep_exec(v: &Vec<char>) -> (r: usize)
    ensures
        r == find_sep(v@, 0),
        r <= v@.len(),
        r < v@.len() ==> is_date_sep(v@[r as int]),
{
    let n = v.len();
    let mut j: usize = 0;
    while j < n
        invariant
            j <= n,
            n == v@.len(),
            find_sep(v@, 0) == find_sep(v@, j as int),
        decreases n - j,
    {
        let c = v[j];
        if c == '/' || c == '-' {
            return j;
        }
        j += 1;
    }
    n
}

/// Whether every piece parses as a number.
pub open spec fn all_parts_ok(parts: Seq<Seq<char>>) -> bool {
    forall|i: int| 0 <= i < parts.len() ==> parse_u32_spec(#[trigger] parts[i]) is Some
}

/// The parsed value of one piece (zero where it does not parse).
pub open spec fn part_value(p: Seq<char>) -> u32 {
    match parse_u32_spec(p) {
        Option::Some(v) => v,
        Option::None => 0,
    }
}

/// The parsed values of all pieces.
pub open spec fn values_of(parts: Seq<Seq<char>>) -> Seq<u32> {
    parts.map_values(|p: Seq<char>| part_value(p))
}

fn parse_pieces(v: Vec<char>) -> (r: Option<Vec<u32>>)
    ensures
        match r {
            Some(vals) => all_parts_ok(split_seps(v@)) && vals@ == values_of(split_seps(v@)),
            None => !all_parts_ok(split_seps(v@)),
        },
    decreases v@.len(),
{
    let n = v.len();
    let j = find_sep_exec(&v);
    if j >= n {
        match parse_u32_chars(&v) {
            Some(x) => {
                let mut out: Vec<u32> = Vec::new();
                out.push(x);
                proof {
                    assert(split_seps(v@) =~= seq![v@]);
                    assert(values_of(seq![v@])[0] == part_value(v@));
                    assert(out@ =~= values_of(split_seps(v@)));
                }
                Some(out)
            },
            None => {
                proof {
                    assert(split_seps(v@) =~= seq![v@]);
                    assert(split_seps(v@)[0] == v@);
                }
                None
            },
        }
    } else {
        let piece = char_slice(&v, 0, j);
        let rest = char_slice(&v, j + 1, n);
        proof {
            assert(piece@ =~= v@.take(j as int));
            assert(rest@ =~= v@.skip(j as int + 1));
            assert(split_seps(v@) =~= seq![v@.take(j as int)] + split_seps(v@.skip(j as int + 1)));
        }
        let first = parse_u32_chars(&piece);
        match first {
            None => {
                proof {
                    assert(split_seps(v@)[0] == piece@);
                }
                None
            },
            Some(x) => {
                match parse_pieces(rest) {
                    None => {
                        proof {
                            let parts = split_seps(rest@);
                            let i = choose|i: int|
                                0 <= i < parts.len() && !(parse_u32_spec(#[trigger] parts[i])
                                    is Some);
                            assert(split_seps(v@)[i + 1] == parts[i]);
                        }
                        None
                    },
                    Some(vals) => {
                        let mut out: Vec<u32> = Vec::new();
                        out.push(x);
                        let mut tail = vals;
                        out.append(&mut tail);
                        proof {
                            let parts = split_seps(v@);
                            let rparts = split_seps(rest@);
                            assert forall|i: int| 0 <= i < parts.len() implies parse_u32_spec(
                                #[trigger] parts[i],
                            ) is Some by {
                                if i == 0 {
                                    assert(parts[0] == piece@);
                                } else {
                                    assert(parts[i] == rparts[i - 1]);
                                }
                            }
                            assert forall|i: int| 0 <= i < parts.len() implies out@[i]
                                == values_of(parts)[i] by {
                                assert(values_of(parts)[i] == part_value(parts[i]));
                                if i == 0 {
                                    assert(parts[0] == piece@);
                                } else {
                                    assert(parts[i] == rparts[i - 1]);
                                    assert(values_of(rparts)[i - 1] == part_value(rparts[i - 1]));
                                }
                            }
                            assert(out@ =~= values_of(parts));
                        }
                        Some(out)
                    },
                }
            },
        }
    }
}

/// The year a third date field means: the unsigned value reinterpreted as a
/// signed 32-bit number, as a plain `as` cast would.
pub open spec fn year_of_field(v: u32) -> i32 {
    if v <= i32::MAX {
        v as i32
    } else {
        (v as int - 0x1_0000_0000) as i32
    }
}

/// What parsing a date text yields: the text is trimmed and split on `/` or
/// `-` into numbers; one number is a day in the given default year and
/// month, two are a month and day in the default year, three are a full
/// date; anything else is rejected.
pub open spec fn spec_parse_date_str(s: Seq<char>, default_year: i32, default_month: u32) -> Option<
    (i32, u32, u32),
> {
    let t = trim_of(s);
    if t.len() == 0 {
        Option::None
    } else {
        let parts = split_seps(t);
        if !all_parts_ok(parts) {
            Option::None
        } else if parts.len() == 1 {
            Option::Some((default_year, default_month, part_value(parts[0])))
        } else if parts.len() == 2 {
            Option::Some((default_year, part_value(parts[0]), part_value(parts[1])))
        } else if parts.len() == 3 {
            Option::Some(
                (year_of_field(part_value(parts[0])), part_value(parts[1]), part_value(parts[2])),
            )
        } else {
            Option::None
        }
    }
}

/// Parses a day, a month and day, or a full date, over the given defaults;
/// the fields are numbers separated by `/` or `-`. The caller turns the
/// triple into a calendar date and rejects impossible field values there.
pub fn parse_date_str(s: &str, default_year: i32, default_month: u32) -> (r: Option<
    (i32, u32, u32),
>)
    ensures
        r == spec_parse_date_str(s@, default_year, default_month),
{
    let chars = str_to_chars(s);
    let t = trim_chars(&chars);
    if t.len() == 0 {
        return None;
    }
    match parse_pieces(t) {
        None => None,
        Some(vals) => {
            if vals.len() == 1 {
                Some((default_year, default_month, vals[0]))
            } else if vals.len() == 2 {
                Some((default_year, vals[0], vals[1]))
            } else if vals.len() == 3 {
                let y = vals[0];
                let year: i32 = if y <= 0x7FFF_FFFF {
                    y as i32
                } else {
                    ((y as i64) - 0x1_0000_0000i64) as i32
                };
                Some((year, vals[1], vals[2]))
            } else {
                None
            }
        },
    }
}

} // verus!
