//! Specifier resolution: turning an import specifier plus the base it
//! occurs in into the one canonical key used everywhere in the graph.
//!
//! Rules, in priority order:
//! 1. an absolute network URL is returned unchanged;
//! 2. a specifier against a network-URL base is joined onto the base
//!    per URL-join semantics (through the `url` crate);
//! 3. an absolute filesystem path is returned unchanged;
//! 4. otherwise the specifier is joined onto the base path (the base's
//!    parent directory when the base names a file), `.`, `..` and empty
//!    segments are normalized away, and an absolute path is returned.

use vstd::prelude::*;
use vstd::string::*;

verus! {

/// The character views of a sequence of strings.
pub open spec fn views(v: Seq<String>) -> Seq<Seq<char>> {
    v.map_values(|s: String| s@)
}

/// An absolute network URL: it starts with `http://` or `https://`.
pub open spec fn is_remote_spec(s: Seq<char>) -> bool {
    ||| (s.len() >= 7 && s[0] == 'h' && s[1] == 't' && s[2] == 't' && s[3] == 'p' && s[4] == ':'
        && s[5] == '/' && s[6] == '/')
    ||| (s.len() >= 8 && s[0] == 'h' && s[1] == 't' && s[2] == 't' && s[3] == 'p' && s[4] == 's'
        && s[5] == ':' && s[6] == '/' && s[7] == '/')
}

/// What `url::Url::parse(base)` followed by `Url::join(rel)` serializes
/// to, or `None` where parsing or joining fails. URL-join semantics
/// (relative paths, `..`, query and fragment handling) are the `url`
/// crate's; this crate only names the outcome.
pub uninterp spec fn join_url(base: Seq<char>, rel: Seq<char>) -> Option<Seq<char>>;

/// The view of an optional string.
pub open spec fn view_opt(o: Option<String>) -> Option<Seq<char>> {
    match o {
        Option::Some(s) => Option::Some(s@),
        Option::None => Option::None,
    }
}

/// Relies on `url::Url::parse` and `url::Url::join`: parses `base` as an
/// absolute URL, resolves `rel` against it per the URL standard, and
/// serializes the result; any parse or join failure yields `None`.
#[verifier::external_body]
fn url_join(base: &String, rel: &String) -> (r: Option<String>)
    ensures
        view_opt(r) == join_url(base@, rel@),
{
    match url::Url::parse(base) {
        Ok(u) => match u.join(rel) {
            Ok(joined) => Some(String::from(joined)),
            Err(_) => None,
        },
        Err(_) => None,
    }
}

/// Splits `s` on `/`, front to back; `cur` is the segment read so far.
/// The result always holds at least one (possibly empty) segment.
pub open spec fn split_acc(s: Seq<char>, cur: Seq<char>) -> Seq<Seq<char>>
    decreases s.len(),
{
    if s.len() == 0 {
        seq![cur]
    } else if s[0] == '/' {
        seq![cur] + split_acc(s.drop_first(), Seq::empty())
    } else {
        split_acc(s.drop_first(), cur.push(s[0]))
    }
}

/// The `/`-separated segments of `s`.
pub open spec fn split_spec(s: Seq<char>) -> Seq<Seq<char>> {
    split_acc(s, Seq::empty())
}

/// One path segment `.`.
pub open spec fn dot() -> Seq<char> {
    seq!['.']
}

/// One path segment `..`.
pub open spec fn dotdot() -> Seq<char> {
    seq!['.', '.']
}

/// Normalizes path segments onto a stack: empty and `.` segments are
/// dropped, `..` pops the previous real segment and is kept where there
/// is none to pop.
pub open spec fn norm_acc(segs: Seq<Seq<char>>, stack: Seq<Seq<char>>) -> Seq<Seq<char>>
    decreases segs.len(),
{
    if segs.len() == 0 {
        stack
    } else {
        let seg = segs[0];
        let rest = segs.drop_first();
        if seg.len() == 0 || seg == dot() {
            norm_acc(rest, stack)
        } else if seg == dotdot() {
            if stack.len() > 0 && stack.last() != dotdot() {
                norm_acc(rest, stack.drop_last())
            } else {
                norm_acc(rest, stack.push(seg))
            }
        } else {
            norm_acc(rest, stack.push(seg))
        }
    }
}

/// Joins normalized segments into an absolute path: `/` before each
/// segment, a bare `/` when no segment is left.
pub open spec fn cat_all(segs: Seq<Seq<char>>) -> Seq<char>
    decreases segs.len(),
{
    if segs.len() == 0 {
        Seq::empty()
    } else {
        seq!['/'] + segs[0] + cat_all(segs.drop_first())
    }
}

/// The absolute path string for a normalized segment stack.
pub open spec fn join_spec(segs: Seq<Seq<char>>) -> Seq<char> {
    if segs.len() == 0 {
        seq!['/']
    } else {
        cat_all(segs)
    }
}

/// The raw segment list for rule 4: the base's segments (its last one
/// dropped when the base names a file) followed by the specifier's.
pub open spec fn local_segments(s: Seq<char>, base: Seq<char>, base_is_file: bool) -> Seq<
    Seq<char>,
> {
    (if base_is_file {
        split_spec(base).drop_last()
    } else {
        split_spec(base)
    }) + split_spec(s)
}

/// The canonical specifier for `s` against `base`; `base_is_file` says
/// whether a filesystem base names an existing file (rule 4 then
/// resolves against its parent directory). Where a network-URL join
/// fails, resolution degrades to returning the specifier itself.
pub open spec fn resolve_spec(s: Seq<char>, base: Seq<char>, base_is_file: bool) -> Seq<char> {
    if is_remote_spec(s) {
        s
    } else if is_remote_spec(base) {
        match join_url(base, s) {
            Option::Some(u) => u,
            Option::None => s,
        }
    } else if s.len() > 0 && s[0] == '/' {
        s
    } else {
        join_spec(norm_acc(local_segments(s, base, base_is_file), Seq::empty()))
    }
}

/// Returns the number of characters of `s`.
fn str_len(s: &String) -> (n: usize)
    ensures
        n == s@.len(),
{
    s.as_str().unicode_len()
}

/// Returns the character of `s` at position `i`.
fn char_at(s: &String, i: usize) -> (c: char)
    requires
        i < s@.len(),
    ensures
        c == s@[i as int],
{
    s.as_str().get_char(i)
}

/// Decides whether `s` is an absolute network URL.
pub fn is_remote(s: &String) -> (b: bool)
    ensures
        b == is_remote_spec(s@),
{
    let n = str_len(s);
    if n >= 7 && char_at(s, 0) == 'h' && char_at(s, 1) == 't' && char_at(s, 2) == 't' && char_at(
        s,
        3,
    ) == 'p' {
        if char_at(s, 4) == ':' && char_at(s, 5) == '/' && char_at(s, 6) == '/' {
            true
        } else if n >= 8 && char_at(s, 4) == 's' && char_at(s, 5) == ':' && char_at(s, 6) == '/'
            && char_at(s, 7) == '/' {
            true
        } else {
            false
        }
    } else {
        false
    }
}

/// Splits `s` into its `/`-separated segments.
fn split_slash(s: &String) -> (segs: Vec<String>)
    ensures
        views(segs@) == split_spec(s@),
        segs@.len() > 0,
{
    let n = str_len(s);
    let mut segs: Vec<String> = Vec::new();
    let mut start: usize = 0;
    let mut i: usize = 0;
    proof {
        assert(s@.subrange(0, n as int) =~= s@);
        assert(s@.subrange(0, 0) =~= Seq::<char>::empty());
        assert(views(segs@) =~= Seq::<Seq<char>>::empty());
    }
    while i < n
        invariant
            n == s@.len(),
            start <= i <= n,
            split_spec(s@) =~= views(segs@) + split_acc(
                s@.subrange(i as int, n as int),
                s@.subrange(start as int, i as int),
            ),
        decreases n - i,
    {
        let c = char_at(s, i);
        proof {
            assert(s@.subrange(i as int, n as int)[0] == s@[i as int]);
        }
        if c == '/' {
            let piece = s.as_str().substring_char(start, i).to_owned();
            proof {
                assert(s@.subrange(i as int, n as int).drop_first() =~= s@.subrange(
                    i as int + 1,
                    n as int,
                ));
                assert(s@.subrange(i as int + 1, i as int + 1) =~= Seq::<char>::empty());
            }
            segs.push(piece);
            proof {
                assert(views(segs@) =~= views(segs@.drop_last()) + seq![
                    s@.subrange(start as int, i as int),
                ]);
            }
            start = i + 1;
        } else {
            proof {
                assert(s@.subrange(i as int, n as int).drop_first() =~= s@.subrange(
                    i as int + 1,
                    n as int,
                ));
                assert(s@.subrange(start as int, i as int).push(s@[i as int]) =~= s@.subrange(
                    start as int,
                    i as int + 1,
                ));
            }
        }
        i = i + 1;
    }
    let piece = s.as_str().substring_char(start, n).to_owned();
    proof {
        assert(s@.subrange(n as int, n as int) =~= Seq::<char>::empty());
    }
    segs.push(piece);
    proof {
        assert(views(segs@) =~= views(segs@.drop_last()) + seq![
            s@.subrange(start as int, n as int),
        ]);
    }
    segs
}

/// Decides whether a segment is empty.
fn seg_is_empty(seg: &String) -> (b: bool)
    ensures
        b == (seg@.len() == 0),
{
    let n = str_len(seg);
    n == 0
}

/// Decides whether a segment is `.`.
fn seg_is_dot(seg: &String) -> (b: bool)
    ensures
        b == (seg@ == dot()),
{
    let n = str_len(seg);
    if n == 1 && char_at(seg, 0) == '.' {
        proof {
            assert(seg@ =~= dot());
        }
        true
    } else {
        proof {
            assert(seg@ == dot() ==> seg@.len() == 1 && seg@[0] == '.');
        }
        false
    }
}

/// Decides whether a segment is `..`.
fn seg_is_dotdot(seg: &String) -> (b: bool)
    ensures
        b == (seg@ == dotdot()),
{
    let n = str_len(seg);
    if n == 2 && char_at(seg, 0) == '.' && char_at(seg, 1) == '.' {
        proof {
            assert(seg@ =~= dotdot());
        }
        true
    } else {
        proof {
            assert(seg@ == dotdot() ==> seg@.len() == 2 && seg@[0] == '.' && seg@[1] == '.');
        }
        false
    }
}

/// Normalizes a segment list onto a stack of real segments.
fn normalize_segments(segs: Vec<String>) -> (stack: Vec<String>)
    ensures
        views(stack@) == norm_acc(views(segs@), Seq::empty()),
{
    let mut stack: Vec<String> = Vec::new();
    let n = segs.len();
    let mut j: usize = 0;
    proof {
        assert(views(stack@) =~= Seq::<Seq<char>>::empty());
        assert(views(segs@).subrange(0, n as int) =~= views(segs@));
    }
    while j < n
        invariant
            n == segs@.len(),
            j <= n,
            norm_acc(views(segs@), Seq::empty()) == norm_acc(
                views(segs@).subrange(j as int, n as int),
                views(stack@),
            ),
        decreases n - j,
    {
        let ghost rem = views(segs@).subrange(j as int, n as int);
        let ghost old_stack = stack@;
        proof {
            assert(rem[0] == segs@[j as int]@);
            assert(rem.drop_first() =~= views(segs@).subrange(j as int + 1, n as int));
        }
        let seg = &segs[j];
        if seg_is_empty(seg) || seg_is_dot(seg) {
            proof {
                assert(norm_acc(rem, views(old_stack)) == norm_acc(
                    rem.drop_first(),
                    views(old_stack),
                ));
            }
        } else if seg_is_dotdot(seg) {
            let top_is_real = if stack.len() > 0 {
                !seg_is_dotdot(&stack[stack.len() - 1])
            } else {
                false
            };
            proof {
                if old_stack.len() > 0 {
                    assert(views(old_stack).last() == old_stack.last()@);
                }
                assert(top_is_real == (views(old_stack).len() > 0 && views(old_stack).last()
                    != dotdot()));
            }
            if top_is_real {
                let _dropped = stack.pop();
                proof {
                    assert(views(stack@) =~= views(old_stack).drop_last());
                    assert(norm_acc(rem, views(old_stack)) == norm_acc(
                        rem.drop_first(),
                        views(old_stack).drop_last(),
                    ));
                }
            } else {
                stack.push(seg.clone());
                proof {
                    assert(views(stack@) =~= views(old_stack).push(seg@));
                    assert(norm_acc(rem, views(old_stack)) == norm_acc(
                        rem.drop_first(),
                        views(old_stack).push(rem[0]),
                    ));
                }
            }
        } else {
            stack.push(seg.clone());
            proof {
                assert(views(stack@) =~= views(old_stack).push(seg@));
                assert(norm_acc(rem, views(old_stack)) == norm_acc(
                    rem.drop_first(),
                    views(old_stack).push(rem[0]),
                ));
            }
        }
        j = j + 1;
    }
    proof {
        assert(views(segs@).subrange(n as int, n as int) =~= Seq::<Seq<char>>::empty());
    }
    stack
}

/// `cat_all` over a snoc: appending one segment appends `/` and it.
proof fn lemma_cat_snoc(segs: Seq<Seq<char>>, x: Seq<char>)
    ensures
        cat_all(segs.push(x)) == cat_all(segs) + seq!['/'] + x,
    decreases segs.len(),
{
    if segs.len() == 0 {
        assert(segs.push(x).drop_first() =~= Seq::<Seq<char>>::empty());
        assert(cat_all(segs.push(x)) == seq!['/'] + x + cat_all(Seq::<Seq<char>>::empty()));
        assert(cat_all(segs.push(x)) =~= cat_all(segs) + seq!['/'] + x);
    } else {
        let rest = segs.drop_first();
        assert(segs.push(x).drop_first() =~= rest.push(x));
        lemma_cat_snoc(rest, x);
        assert(cat_all(segs.push(x)) == seq!['/'] + segs[0] + cat_all(rest.push(x)));
        assert(cat_all(segs) == seq!['/'] + segs[0] + cat_all(rest));
        assert(cat_all(segs.push(x)) =~= cat_all(segs) + seq!['/'] + x);
    }
}

/// Joins a normalized stack into an absolute path string.
fn join_segments(stack: &Vec<String>) -> (r: String)
    ensures
        r@ == join_spec(views(stack@)),
{
    let n = stack.len();
    if n == 0 {
        let r = String::from_str("/");
        proof {
            reveal_strlit("/");
            assert(r@ =~= seq!['/']);
        }
        r
    } else {
        let mut r = String::new();
        let mut j: usize = 0;
        proof {
            assert(views(stack@).subrange(0, 0) =~= Seq::<Seq<char>>::empty());
            assert(r@ =~= cat_all(views(stack@).subrange(0, 0)));
        }
        while j < n
            invariant
                n == stack@.len(),
                j <= n,
                r@ == cat_all(views(stack@).subrange(0, j as int)),
            decreases n - j,
        {
            r.append("/");
            proof {
                reveal_strlit("/");
                assert("/"@ =~= seq!['/']);
            }
            r.append(stack[j].as_str());
            proof {
                let pre = views(stack@).subrange(0, j as int);
                assert(pre.push(stack@[j as int]@) =~= views(stack@).subrange(0, j as int + 1));
                lemma_cat_snoc(pre, stack@[j as int]@);
            }
            j = j + 1;
        }
        proof {
            assert(views(stack@).subrange(0, n as int) =~= views(stack@));
        }
        r
    }
}

/// Resolves `specifier` against `base` into the canonical specifier.
/// `base_is_file` reports whether a filesystem `base` names an existing
/// file; the caller reads that off the filesystem.
///
/// Pure: the result is a function of the three arguments alone, and
/// resolution never fails (a failed URL join degrades to the specifier
/// itself).
pub fn resolve(specifier: &String, base: &String, base_is_file: bool) -> (r: String)
    ensures
        r@ == resolve_spec(specifier@, base@, base_is_file),
{
    if is_remote(specifier) {
        return specifier.clone();
    }
    if is_remote(base) {
        match url_join(base, specifier) {
            Some(u) => {
                return u;
            },
            None => {
                return specifier.clone();
            },
        }
    }
    let slen = str_len(specifier);
    if slen > 0 && char_at(specifier, 0) == '/' {
        return specifier.clone();
    }
    let mut segs = split_slash(base);
    if base_is_file {
        let _last = segs.pop();
        proof {
            assert(views(segs@) =~= views(segs@.push(_last.unwrap())).drop_last());
        }
    }
    let mut tail = split_slash(specifier);
    let ghost base_part = views(segs@);
    segs.append(&mut tail);
    proof {
        assert(views(segs@) =~= base_part + split_spec(specifier@));
        assert(views(segs@) =~= local_segments(specifier@, base@, base_is_file));
    }
    let stack = normalize_segments(segs);
    join_segments(&stack)
}

/// Rule 1 as a law: an absolute network URL resolves to itself,
/// whatever the base.
pub proof fn lemma_resolve_absolute_url(s: Seq<char>, base: Seq<char>, base_is_file: bool)
    requires
        is_remote_spec(s),
    ensures
        resolve_spec(s, base, base_is_file) == s,
{
}

/// Resolution is deterministic: two results for the same inputs agree.
pub proof fn lemma_resolve_deterministic(
    s: Seq<char>,
    base: Seq<char>,
    base_is_file: bool,
    r1: Seq<char>,
    r2: Seq<char>,
)
    requires
        r1 == resolve_spec(s, base, base_is_file),
        r2 == resolve_spec(s, base, base_is_file),
    ensures
        r1 == r2,
{
}

} // verus!
