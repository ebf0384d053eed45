//! Unix path strings: joining, absolute paths, final components, existence.

use vstd::prelude::*;

use crate::text::{append_chars, chars_of, ends_with, string_from_chars};

verus! {

/// `rel` appended to `base` the way `Path::join` does on Unix: an absolute
/// `rel` replaces `base`; otherwise a `/` is inserted unless `base` is empty
/// or already ends with one.
pub open spec fn path_join(base: Seq<char>, rel: Seq<char>) -> Seq<char> {
    if rel.len() > 0 && rel[0] == '/' {
        rel
    } else if base.len() == 0 || base.last() == '/' {
        base + rel
    } else {
        base + seq!['/'] + rel
    }
}

/// A path is absolute when it starts at the root.
pub open spec fn is_absolute(p: Seq<char>) -> bool {
    p.len() > 0 && p[0] == '/'
}

/// Joins two paths (`Path::join`).
pub fn join_path(base: &str, rel: &str) -> (r: String)
    ensures
        r@ == path_join(base@, rel@),
{
    let b = chars_of(base);
    let rl = chars_of(rel);
    if rl.len() > 0 && rl[0] == '/' {
        return string_from_chars(&rl);
    }
    let mut out = b;
    let n = out.len();
    if n > 0 && out[n - 1] != '/' {
        out.push('/');
    }
    append_chars(&mut out, &rl);
    proof {
        if !(b@.len() == 0 || b@.last() == '/') {
            assert(b@.push('/') =~= b@ + seq!['/']);
        }
    }
    string_from_chars(&out)
}

/// Whether a path is absolute (`Path::is_absolute` on Unix).
pub fn path_is_absolute(p: &str) -> (b: bool)
    ensures
        b == is_absolute(p@),
{
    let v = chars_of(p);
    v.len() > 0 && v[0] == '/'
}

/// The pieces of `s` between separators, the last one included even when
/// empty (`str::split`).
pub open spec fn split_on(s: Seq<char>, sep: char, cur: Seq<char>) -> Seq<Seq<char>>
    decreases s.len(),
{
    if s.len() == 0 {
        seq![cur]
    } else if s[0] == sep {
        seq![cur] + split_on(s.drop_first(), sep, seq![])
    } else {
        split_on(s.drop_first(), sep, cur.push(s[0]))
    }
}

/// A piece names a component: neither empty nor the current directory.
pub open spec fn is_component(piece: Seq<char>) -> bool {
    piece.len() > 0 && piece != "."@
}

/// The components of a piece list, in order.
pub open spec fn components(pieces: Seq<Seq<char>>) -> Seq<Seq<char>>
    decreases pieces.len(),
{
    if pieces.len() == 0 {
        seq![]
    } else if is_component(pieces.last()) {
        components(pieces.drop_last()).push(pieces.last())
    } else {
        components(pieces.drop_last())
    }
}

/// The final component of a path (`Path::file_name`): none when the path has
/// no component or ends in `..`.
pub open spec fn file_name(p: Seq<char>) -> Option<Seq<char>> {
    let cs = components(split_on(p, '/', seq![]));
    if cs.len() == 0 || cs.last() == ".."@ {
        None
    } else {
        Some(cs.last())
    }
}

/// The final component of a path.
pub fn path_file_name(p: &str) -> (r: Option<String>)
    ensures
        r matches Some(n) ==> file_name(p@) == Some(n@),
        r is None ==> file_name(p@) is None,
{
    let v = chars_of(p);
    let mut comps: Vec<Vec<char>> = Vec::new();
    let mut cur: Vec<char> = Vec::new();
    let ghost pieces: Seq<Seq<char>> = seq![];
    let mut i: usize = 0;
    assert(v@.subrange(0, v@.len() as int) =~= v@);
    while i < v.len()
        invariant
            i <= v@.len(),
            pieces + split_on(v@.subrange(i as int, v@.len() as int), '/', cur@) == split_on(
                v@,
                '/',
                seq![],
            ),
            comps@.len() == components(pieces).len(),
            forall|k: int| 0 <= k < comps@.len() ==> #[trigger] comps@[k]@ == components(pieces)[k],
        decreases v@.len() - i,
    {
        let ghost rest = v@.subrange(i as int, v@.len() as int);
        proof {
            assert(rest[0] == v@[i as int]);
            assert(rest.drop_first() =~= v@.subrange(i + 1, v@.len() as int));
        }
        if v[i] == '/' {
            let keep = is_component_chars(&cur);
            proof {
                assert(pieces + (seq![cur@] + split_on(rest.drop_first(), '/', seq![])) =~= pieces.push(
                    cur@,
                ) + split_on(rest.drop_first(), '/', seq![]));
                assert(pieces.push(cur@).drop_last() =~= pieces);
                pieces = pieces.push(cur@);
            }
            if keep {
                comps.push(cur);
            }
            cur = Vec::new();
            assert(cur@ =~= Seq::<char>::empty());
        } else {
            cur.push(v[i]);
        }
        i = i + 1;
    }
    proof {
        assert(v@.subrange(i as int, v@.len() as int) =~= Seq::<char>::empty());
        assert(pieces.push(cur@).drop_last() =~= pieces);
        assert(pieces + seq![cur@] =~= pieces.push(cur@));
        pieces = pieces.push(cur@);
    }
    if is_component_chars(&cur) {
        comps.push(cur);
    }
    let n = comps.len();
    if n == 0 {
        return None;
    }
    let last = comps.pop().unwrap();
    if last.len() == 2 && last[0] == '.' && last[1] == '.' {
        proof {
            assert(last@ =~= ".."@) by {
                reveal_strlit("..");
            }
        }
        return None;
    }
    proof {
        reveal_strlit("..");
        assert(last@ != ".."@);
    }
    Some(string_from_chars(&last))
}

fn is_component_chars(piece: &Vec<char>) -> (b: bool)
    ensures
        b == is_component(piece@),
{
    proof {
        reveal_strlit(".");
    }
    if piece.len() == 0 {
        return false;
    }
    if piece.len() == 1 && piece[0] == '.' {
        assert(piece@ =~= "."@);
        return false;
    }
    assert(piece@ != "."@);
    true
}

/// The stem of a `.yml` file name: the name without its `.yml` extension,
/// when that extension is present and something precedes it.
pub open spec fn yml_stem(name: Seq<char>) -> Option<Seq<char>> {
    if name.len() > 4 && ends_with(name, ".yml"@) {
        Some(name.subrange(0, name.len() - 4))
    } else {
        None
    }
}

/// The stem of a `.yml` file name (`Path::file_stem` of a file whose
/// `Path::extension` is `yml`).
pub fn yml_file_stem(name: &str) -> (r: Option<String>)
    ensures
        r matches Some(s) ==> yml_stem(name@) == Some(s@),
        r is None ==> yml_stem(name@) is None,
{
    let v = chars_of(name);
    let n = v.len();
    proof {
        reveal_strlit(".yml");
    }
    if n > 4 && v[n - 4] == '.' && v[n - 3] == 'y' && v[n - 2] == 'm' && v[n - 1] == 'l' {
        assert(v@.subrange(n - 4, n as int) =~= ".yml"@);
        let mut stem: Vec<char> = Vec::new();
        let mut k: usize = 0;
        while k < n - 4
            invariant
                n == v@.len(),
                n > 4,
                k <= n - 4,
                stem@ == v@.subrange(0, k as int),
            decreases n - 4 - k,
        {
            stem.push(v[k]);
            k = k + 1;
            assert(stem@ =~= v@.subrange(0, k as int));
        }
        Some(string_from_chars(&stem))
    } else {
        proof {
            if n > 4 && ends_with(v@, ".yml"@) {
                assert(v@.subrange(n - 4, n as int)[0] == v@[n - 4]);
                assert(v@.subrange(n - 4, n as int)[1] == v@[n - 3]);
                assert(v@.subrange(n - 4, n as int)[2] == v@[n - 2]);
                assert(v@.subrange(n - 4, n as int)[3] == v@[n - 1]);
            }
        }
        None
    }
}

/// Whether something exists at the path (`Path::exists`).
///
/// Trusted for nothing: the answer depends on the file system at the moment
/// of the call.
#[verifier::external_body]
pub(crate) fn path_exists(p: &str) -> (b: bool) {
    std::path::Path::new(p).exists()
}

} // verus!
