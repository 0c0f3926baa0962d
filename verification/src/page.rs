use vstd::prelude::*;
use crate::text::{char_slice, chars_to_string, push_all, str_to_chars};
use crate::time::Timestamp;

verus! {

/// The schema version this build writes and expects on disk.
pub const CURRENT_PAGE_VERSION: u32 = 2;

/// One diary page. `id` is its stable identity across the store and the
/// remote copy; `created_at` never changes after creation and decides which
/// weekly shard holds the page; `updated_at` is the append-only history of
/// edit times, never empty for a valid page.
#[derive(Clone, Debug)]
pub struct Page {
    pub id: String,
    pub title: String,
    pub text: String,
    pub hidden: bool,
    pub created_at: Timestamp,
    pub updated_at: Vec<Timestamp>,
}

impl Page {
    /// Valid pages carry in-range timestamps and at least one update entry.
    pub open spec fn wf(self) -> bool {
        &&& self.created_at.wf()
        &&& self.updated_at@.len() >= 1
        &&& forall|i: int| 0 <= i < self.updated_at@.len() ==> (#[trigger] self.updated_at@[i]).wf()
    }
}

/// A page as the first on-disk schema stored it: the same fields except the
/// stable `id`, which the schema upgrade adds.
#[derive(Clone, Debug)]
pub struct PageV1 {
    pub title: String,
    pub text: String,
    pub hidden: bool,
    pub created_at: Timestamp,
    pub updated_at: Vec<Timestamp>,
}

/// One weekly shard: every page whose `created_at` falls in the shard's
/// Sunday-to-Saturday week, plus the time of the last successful upload.
/// `uploaded_at` is cleared whenever a local write touches the shard.
#[derive(Clone, Debug)]
pub struct WeekPage {
    pub pages: Vec<Page>,
    pub uploaded_at: Option<Timestamp>,
}

impl WeekPage {
    pub open spec fn wf(self) -> bool {
        forall|i: int| 0 <= i < self.pages@.len() ==> (#[trigger] self.pages@[i]).wf()
    }

    /// A fresh, never-uploaded shard with no pages.
    pub fn new() -> (w: WeekPage)
        ensures
            w.pages@ =~= Seq::<Page>::empty(),
            w.uploaded_at is None,
    {
        WeekPage { pages: Vec::new(), uploaded_at: None }
    }
}

/// A weekly shard under the first on-disk schema.
#[derive(Clone, Debug)]
pub struct WeekPageV1 {
    pub pages: Vec<PageV1>,
    pub uploaded_at: Option<Timestamp>,
}

/// Position of the first `](` pair at or after `i`, scanning within the
/// line: -1 when a line break or the end comes first.
pub open spec fn find_bracket_paren(s: Seq<char>, i: int) -> int
    decreases s.len() - i,
{
    if i < 0 || i >= s.len() {
        -1
    } else if s[i] == '\n' {
        -1
    } else if s[i] == ']' && i + 1 < s.len() && s[i + 1] == '(' {
        i
    } else {
        find_bracket_paren(s, i + 1)
    }
}

/// Position of the first `)` at or after `i`, scanning within the line:
/// -1 when a line break or the end comes first.
pub open spec fn find_paren(s: Seq<char>, i: int) -> int
    decreases s.len() - i,
{
    if i < 0 || i >= s.len() {
        -1
    } else if s[i] == '\n' {
        -1
    } else if s[i] == ')' {
        i
    } else {
        find_paren(s, i + 1)
    }
}

fn find_bracket_paren_exec(v: &Vec<char>, start: usize) -> (r: Option<usize>)
    ensures
        match r {
            Some(a) => find_bracket_paren(v@, start as int) == a && start <= a && a + 1 < v@.len()
                && v@[a as int] == ']' && v@[a as int + 1] == '(',
            None => find_bracket_paren(v@, start as int) == -1,
        },
{
    let n = v.len();
    let mut j = start;
    while j < n
        invariant
            start <= j,
            n == v@.len(),
            find_bracket_paren(v@, start as int) == find_bracket_paren(v@, j as int),
        decreases n - j,
    {
        let c = v[j];
        if c == '\n' {
            return None;
        }
        if c == ']' && j + 1 < n {
            let c2 = v[j + 1];
            if c2 == '(' {
                return Some(j);
            }
        }
        j += 1;
    }
    None
}

fn find_paren_exec(v: &Vec<char>, start: usize) -> (r: Option<usize>)
    ensures
        match r {
            Some(p) => find_paren(v@, start as int) == p && start <= p && p < v@.len()
                && v@[p as int] == ')',
            None => find_paren(v@, start as int) == -1,
        },
{
    let n = v.len();
    let mut j = start;
    while j < n
        invariant
            start <= j,
            n == v@.len(),
            find_paren(v@, start as int) == find_paren(v@, j as int),
        decreases n - j,
    {
        let c = v[j];
        if c == '\n' {
            return None;
        }
        if c == ')' {
            return Some(j);
        }
        j += 1;
    }
    None
}

/// Position of the last `/` in the sequence, -1 when there is none.
pub open spec fn last_slash(s: Seq<char>) -> int
    decreases s.len(),
{
    if s.len() == 0 {
        -1
    } else if s.last() == '/' {
        s.len() - 1
    } else {
        last_slash(s.drop_last())
    }
}

proof fn lemma_last_slash(s: Seq<char>, lo: int)
    requires
        0 <= lo <= s.len(),
        forall|k: int| lo <= k < s.len() ==> s[k] != '/',
        lo > 0 ==> s[lo - 1] == '/',
    ensures
        last_slash(s) == lo - 1,
    decreases s.len(),
{
    if s.len() == 0 {
    } else if s.last() == '/' {
        assert(lo == s.len());
    } else {
        assert(lo < s.len() || (lo > 0 && s[lo - 1] == '/' && lo - 1 == s.len() - 1));
        assert(lo <= s.len() - 1);
        lemma_last_slash(s.drop_last(), lo);
    }
}

/// The file name a reference path points at: the last `/`-separated piece,
/// ignoring empty pieces and `.` pieces at the end; none when nothing is
/// left or the path ends in `..`.
pub open spec fn file_name_of(path: Seq<char>) -> Option<Seq<char>>
    decreases path.len(),
{
    if path.len() == 0 {
        Option::None
    } else {
        let j = last_slash(path);
        if j >= path.len() {
            Option::None
        } else {
            let piece = path.skip(j + 1);
            if piece.len() == 0 || piece == seq!['.'] {
                file_name_of(path.take(if j >= 0 { j } else { 0 }))
            } else if piece == seq!['.', '.'] {
                Option::None
            } else {
                Option::Some(piece)
            }
        }
    }
}

fn file_name_chars(path: &Vec<char>) -> (r: Option<Vec<char>>)
    ensures
        match r {
            Some(v) => file_name_of(path@) == Option::Some(v@),
            None => file_name_of(path@) is None,
        },
{
    let mut hi = path.len();
    proof {
        assert(path@.take(hi as int) =~= path@);
    }
    loop
        invariant_except_break
            hi <= path@.len(),
            file_name_of(path@) == file_name_of(path@.take(hi as int)),
        ensures
            file_name_of(path@) is None,
        decreases hi,
    {
        if hi == 0 {
            proof {
                assert(path@.take(0) =~= Seq::<char>::empty());
            }
            break;
        }
        let ghost cur = path@.take(hi as int);
        let mut lo = hi;
        while lo > 0
            invariant_except_break
                lo <= hi <= path@.len(),
                forall|k: int| lo <= k < hi ==> path@[k] != '/',
            ensures
                lo <= hi <= path@.len(),
                forall|k: int| lo <= k < hi ==> path@[k] != '/',
                lo > 0 ==> path@[lo - 1] == '/',
            decreases lo,
        {
            if path[lo - 1] == '/' {
                break;
            }
            lo -= 1;
        }
        proof {
            assert forall|k: int| lo <= k < cur.len() implies cur[k] != '/' by {
                assert(cur[k] == path@[k]);
            }
            if lo > 0 {
                assert(cur[lo - 1] == path@[lo - 1]);
            }
            lemma_last_slash(cur, lo as int);
            assert(cur.skip(lo as int) =~= path@.subrange(lo as int, hi as int));
        }
        if lo == hi {
            // an empty piece: a trailing slash; drop it and go on
            hi = lo - 1;
            proof {
                assert(cur.take(lo as int - 1) =~= path@.take(hi as int));
            }
        } else if hi - lo == 1 && path[lo] == '.' {
            proof {
                assert(path@.subrange(lo as int, hi as int) =~= seq!['.']);
            }
            if lo == 0 {
                hi = 0;
                proof {
                    assert(cur.take(0) =~= path@.take(0));
                }
            } else {
                hi = lo - 1;
                proof {
                    assert(cur.take(lo as int - 1) =~= path@.take(hi as int));
                }
            }
        } else if hi - lo == 2 && path[lo] == '.' && path[lo + 1] == '.' {
            proof {
                assert(path@.subrange(lo as int, hi as int) =~= seq!['.', '.']);
                assert(path@.subrange(lo as int, hi as int) != seq!['.']);
            }
            return None;
        } else {
            proof {
                let piece = path@.subrange(lo as int, hi as int);
                assert(piece.len() >= 1);
                if piece == seq!['.'] {
                    assert(piece.len() == 1 && piece[0] == '.');
                }
                if piece == seq!['.', '.'] {
                    assert(piece.len() == 2 && piece[0] == '.' && piece[1] == '.');
                }
            }
            return Some(char_slice(path, lo, hi));
        }
    }
    None
}

/// How a scanned image reference renames its file.
pub enum ImageNameTransform {
    /// Put a fixed text in front of the name.
    Prefix { prefix: String },
    /// Put a fixed text in front of the name unless it already starts so.
    PrefixIfMissing { prefix: String },
}

/// Whether `s` starts with `prefix`.
pub open spec fn starts_with(s: Seq<char>, prefix: Seq<char>) -> bool {
    prefix.len() <= s.len() && s.take(prefix.len() as int) == prefix
}

/// What a transform does, reduced to plain values: whether the prefix is
/// only added when missing, and the prefix's text.
pub open spec fn transform_view(t: ImageNameTransform) -> (bool, Seq<char>) {
    match t {
        ImageNameTransform::Prefix { prefix } => (false, prefix@),
        ImageNameTransform::PrefixIfMissing { prefix } => (true, prefix@),
    }
}

/// The converted name of one referenced image file.
pub open spec fn spec_transform(tv: (bool, Seq<char>), name: Seq<char>) -> Seq<char> {
    if tv.0 && starts_with(name, tv.1) {
        name
    } else {
        tv.1 + name
    }
}

fn apply_transform(t: &ImageNameTransform, name: &Vec<char>) -> (r: Vec<char>)
    ensures
        r@ == spec_transform(transform_view(*t), name@),
{
    match t {
        ImageNameTransform::Prefix { prefix } => {
            let mut out = str_to_chars(prefix.as_str());
            push_all(&mut out, name);
            out
        },
        ImageNameTransform::PrefixIfMissing { prefix } => {
            let p = str_to_chars(prefix.as_str());
            let mut has = p.len() <= name.len();
            if has {
                let mut i: usize = 0;
                while i < p.len()
                    invariant_except_break
                        has,
                        i <= p@.len() <= name@.len(),
                        p@ == prefix@,
                        forall|k: int| 0 <= k < i ==> name@[k] == p@[k],
                    ensures
                        p@ == prefix@,
                        p@.len() <= name@.len(),
                        has ==> forall|k: int| 0 <= k < p@.len() ==> name@[k] == p@[k],
                        (!has) ==> exists|k: int| 0 <= k < p@.len() && name@[k] != p@[k],
                    decreases p@.len() - i,
                {
                    if name[i] != p[i] {
                        has = false;
                        break;
                    }
                    i += 1;
                    if i >= p.len() {
                        break;
                    }
                }
            }
            proof {
                if has {
                    assert(name@.take(prefix@.len() as int) =~= prefix@);
                } else {
                    if starts_with(name@, prefix@) {
                        let k = choose|k: int| 0 <= k < prefix@.len() && name@[k] != prefix@[k];
                        assert(name@.take(prefix@.len() as int)[k] == name@[k]);
                    }
                }
            }
            if has {
                let mut out: Vec<char> = Vec::new();
                push_all(&mut out, name);
                proof {
                    assert(out@ =~= name@);
                }
                out
            } else {
                let mut out = p;
                push_all(&mut out, name);
                out
            }
        },
    }
}

/// The views of recorded image pairs: each `(file name, converted name)`.
pub open spec fn image_views(v: Seq<(String, String)>) -> Seq<(Seq<char>, Seq<char>)> {
    v.map_values(|p: (String, String)| (p.0@, p.1@))
}

/// The text and the recorded images of a scan from position `i`: at each
/// image reference `![alt](path)` — the alt text and the path each running
/// within one line, the alt ending at the first `](`, the path at the first
/// `)` — the path is reduced to its file name and converted; a reference
/// whose path has no file name is kept verbatim and not recorded.
pub open spec fn spec_scan(text: Seq<char>, i: int, tr: (bool, Seq<char>)) -> (
    Seq<char>,
    Seq<(Seq<char>, Seq<char>)>,
)
    decreases text.len() - i,
{
    if i < 0 || i >= text.len() {
        (Seq::empty(), Seq::empty())
    } else if text[i] == '!' && i + 1 < text.len() && text[i + 1] == '[' {
        let a = find_bracket_paren(text, i + 2);
        if a >= i + 2 && a + 1 < text.len() {
            let p = find_paren(text, a + 2);
            if p >= a + 2 && p < text.len() {
                let alt = text.subrange(i + 2, a);
                let path = text.subrange(a + 2, p);
                let rest = spec_scan(text, p + 1, tr);
                match file_name_of(path) {
                    Option::None => (text.subrange(i, p + 1) + rest.0, rest.1),
                    Option::Some(name) => {
                        let conv = spec_transform(tr, name);
                        (
                            seq!['!', '['] + alt + seq![']', '('] + conv + seq![')'] + rest.0,
                            seq![(name, conv)] + rest.1,
                        )
                    },
                }
            } else {
                let rest = spec_scan(text, i + 1, tr);
                (seq![text[i]] + rest.0, rest.1)
            }
        } else {
            let rest = spec_scan(text, i + 1, tr);
            (seq![text[i]] + rest.0, rest.1)
        }
    } else {
        let rest = spec_scan(text, i + 1, tr);
        (seq![text[i]] + rest.0, rest.1)
    }
}

proof fn lemma_image_views_push(v: Seq<(String, String)>, x: (String, String))
    ensures
        image_views(v.push(x)) == image_views(v).push((x.0@, x.1@)),
{
    assert forall|i: int| 0 <= i < v.len() + 1 implies image_views(v.push(x))[i] == image_views(
        v,
    ).push((x.0@, x.1@))[i] by {
        if i < v.len() {
            assert(v.push(x)[i] == v[i]);
        } else {
            assert(v.push(x)[i] == x);
        }
    }
    assert(image_views(v.push(x)) =~= image_views(v).push((x.0@, x.1@)));
}

/// Rewrites every image reference in a markdown text so that it points at
/// the converted file name, and reports each referenced file with its
/// converted name, in order of appearance.
pub fn convert_image_paths_in_text(text: &str, transform: &ImageNameTransform) -> (r: (
    String,
    Vec<(String, String)>,
))
    ensures
        r.0@ == spec_scan(text@, 0, transform_view(*transform)).0,
        image_views(r.1@) == spec_scan(text@, 0, transform_view(*transform)).1,
{
    let chars = str_to_chars(text);
    let n = chars.len();
    let mut out: Vec<char> = Vec::new();
    let mut images: Vec<(String, String)> = Vec::new();
    let mut i: usize = 0;
    proof {
        assert(spec_scan(chars@, 0, transform_view(*transform)).0 =~= out@ + spec_scan(chars@, 0, transform_view(*transform)).0);
        assert(image_views(images@) =~= Seq::<(Seq<char>, Seq<char>)>::empty());
        assert(spec_scan(chars@, 0, transform_view(*transform)).1 =~= image_views(images@) + spec_scan(chars@, 0, transform_view(*transform)).1);
    }
    while i < n
        invariant
            i <= n,
            n == chars@.len(),
            chars@ == text@,
            spec_scan(chars@, 0, transform_view(*transform)).0 == out@ + spec_scan(chars@, i as int, transform_view(*transform)).0,
            spec_scan(chars@, 0, transform_view(*transform)).1 == image_views(images@) + spec_scan(chars@, i as int, transform_view(*transform)).1,
        decreases n - i,
    {
        let ghost prev_out = out@;
        let ghost prev_images = images@;
        let ghost here = spec_scan(chars@, i as int, transform_view(*transform));
        let c = chars[i];
        let mut plain = true;
        if c == '!' && i + 1 < n {
            let c2 = chars[i + 1];
            if c2 == '[' {
                match find_bracket_paren_exec(&chars, i + 2) {
                    Some(a) => {
                        match find_paren_exec(&chars, a + 2) {
                            Some(p) => {
                                plain = false;
                                let path = char_slice(&chars, a + 2, p);
                                match file_name_chars(&path) {
                                    Some(name) => {
                                        let conv = apply_transform(transform, &name);
                                        out.push('!');
                                        out.push('[');
                                        let alt = char_slice(&chars, i + 2, a);
                                        push_all(&mut out, &alt);
                                        out.push(']');
                                        out.push('(');
                                        push_all(&mut out, &conv);
                                        out.push(')');
                                        let name_s = chars_to_string(&name);
                                        let conv_s = chars_to_string(&conv);
                                        images.push((name_s, conv_s));
                                        proof {
                                            let rest = spec_scan(chars@, p + 1, transform_view(*transform));
                                            assert(here.0 =~= seq!['!', '['] + chars@.subrange(
                                                i + 2,
                                                a as int,
                                            ) + seq![']', '('] + spec_transform(
                                                transform_view(*transform),
                                                name@,
                                            ) + seq![')'] + rest.0);
                                            assert(out@ =~= prev_out + (seq!['!', ('[')]
                                                + chars@.subrange(i + 2, a as int) + seq![
                                                ']',
                                                '(',
                                            ] + conv@ + seq![')']));
                                            assert(spec_scan(chars@, 0, transform_view(*transform)).0 =~= out@
                                                + rest.0);
                                            lemma_image_views_push(
                                                prev_images,
                                                (name_s, conv_s),
                                            );
                                            assert(here.1 =~= seq![(name@, conv@)] + rest.1);
                                            assert(image_views(images@) =~= image_views(
                                                prev_images,
                                            ) + seq![(name@, conv@)]);
                                            assert(spec_scan(chars@, 0, transform_view(*transform)).1 =~=
                                                image_views(images@) + rest.1);
                                        }
                                    },
                                    None => {
                                        let whole = char_slice(&chars, i, p + 1);
                                        push_all(&mut out, &whole);
                                        proof {
                                            let rest = spec_scan(chars@, p + 1, transform_view(*transform));
                                            assert(here.0 =~= chars@.subrange(i as int, p + 1)
                                                + rest.0);
                                            assert(here.1 =~= rest.1);
                                            assert(spec_scan(chars@, 0, transform_view(*transform)).0 =~= out@
                                                + rest.0);
                                            assert(spec_scan(chars@, 0, transform_view(*transform)).1 =~=
                                                image_views(images@) + rest.1);
                                        }
                                    },
                                }
                                i = p + 1;
                            },
                            None => {},
                        }
                    },
                    None => {},
                }
            }
        }
        if plain {
            out.push(c);
            proof {
                let rest = spec_scan(chars@, i as int + 1, transform_view(*transform));
                assert(here.0 =~= seq![c] + rest.0);
                assert(here.1 =~= rest.1);
                assert(out@ =~= prev_out + seq![c]);
                assert(spec_scan(chars@, 0, transform_view(*transform)).0 =~= out@ + rest.0);
                assert(spec_scan(chars@, 0, transform_view(*transform)).1 =~= image_views(images@) + rest.1);
            }
            i += 1;
        }
    }
    proof {
        assert(spec_scan(chars@, n as int, transform_view(*transform)).0 =~= Seq::<char>::empty());
        assert(spec_scan(chars@, n as int, transform_view(*transform)).1 =~= Seq::<(Seq<char>, Seq<char>)>::empty());
        assert(spec_scan(chars@, 0, transform_view(*transform)).0 =~= out@);
        assert(spec_scan(chars@, 0, transform_view(*transform)).1 =~= image_views(images@));
    }
    (chars_to_string(&out), images)
}

} // verus!
