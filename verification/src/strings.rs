//! Path and specifier helpers, stated over sequences of characters.

use vstd::prelude::*;

verus! {

/// Position of the last occurrence of `c` in `s`, or -1 when `c` is absent.
pub open spec fn last_pos(s: Seq<char>, c: char) -> int
    decreases s.len(),
{
    if s.len() == 0 {
        -1
    } else if s[s.len() - 1] == c {
        s.len() - 1
    } else {
        last_pos(s.drop_last(), c)
    }
}

pub proof fn lemma_last_pos_bounds(s: Seq<char>, c: char)
    ensures
        -1 <= last_pos(s, c) < s.len(),
        last_pos(s, c) >= 0 ==> s[last_pos(s, c)] == c,
        forall|j: int| last_pos(s, c) < j < s.len() ==> s[j] != c,
    decreases s.len(),
{
    if s.len() > 0 && s[s.len() - 1] != c {
        lemma_last_pos_bounds(s.drop_last(), c);
        assert forall|j: int| last_pos(s, c) < j < s.len() implies s[j] != c by {
            if j < s.len() - 1 {
                assert(s.drop_last()[j] == s[j]);
            }
        }
    }
}

pub proof fn lemma_last_pos_at(s: Seq<char>, c: char, i: int)
    requires
        0 <= i < s.len(),
        s[i] == c,
        forall|j: int| i < j < s.len() ==> s[j] != c,
    ensures
        last_pos(s, c) == i,
    decreases s.len(),
{
    if s[s.len() - 1] != c {
        lemma_last_pos_at(s.drop_last(), c, i);
    }
}

pub proof fn lemma_last_pos_absent(s: Seq<char>, c: char)
    requires
        forall|j: int| 0 <= j < s.len() ==> s[j] != c,
    ensures
        last_pos(s, c) == -1,
    decreases s.len(),
{
    if s.len() > 0 {
        lemma_last_pos_absent(s.drop_last(), c);
    }
}

/// Scan for the last occurrence of `c`; mirrors `last_pos` exactly.
pub fn find_last(s: &String, c: char) -> (r: Option<usize>)
    ensures
        match r {
            Some(i) => last_pos(s@, c) == i && i < s@.len(),
            None => last_pos(s@, c) == -1,
        },
{
    let st = s.as_str();
    let n = st.unicode_len();
    let mut k = n;
    while k > 0
        invariant
            k <= n,
            n == s@.len(),
            st@ == s@,
            forall|j: int| k <= j < s@.len() ==> s@[j] != c,
        decreases k,
    {
        k = k - 1;
        if st.get_char(k) == c {
            proof {
                lemma_last_pos_at(s@, c, k as int);
            }
            return Some(k);
        }
    }
    proof {
        lemma_last_pos_absent(s@, c);
    }
    None
}

/// The file name of a path: everything after the last `/`.
pub open spec fn spec_file_name(p: Seq<char>) -> Seq<char> {
    p.subrange(last_pos(p, '/') + 1, p.len() as int)
}

/// The extension of a path, with the conventions of the platform's path
/// inspection: empty when the file name holds no dot, or only a leading one.
pub open spec fn spec_extension(p: Seq<char>) -> Seq<char> {
    let name = spec_file_name(p);
    let d = last_pos(name, '.');
    if d <= 0 {
        Seq::empty()
    } else {
        name.subrange(d + 1, name.len() as int)
    }
}

/// Extract the extension of `path` as a fresh string.
pub fn extension_of(path: &String) -> (r: String)
    ensures
        r@ == spec_extension(path@),
{
    proof {
        lemma_last_pos_bounds(path@, '/');
    }
    let st = path.as_str();
    let n = st.unicode_len();
    let start: usize = match find_last(path, '/') {
        Some(i) => i + 1,
        None => 0,
    };
    let name = st.substring_char(start, n);
    proof {
        assert(name@ == spec_file_name(path@));
        lemma_last_pos_bounds(name@, '.');
    }
    let name_owned = name.to_owned();
    let m = name.unicode_len();
    match find_last(&name_owned, '.') {
        Some(d) => {
            if d == 0 {
                String::new()
            } else {
                name.substring_char(d + 1, m).to_owned()
            }
        },
        None => String::new(),
    }
}

/// A specifier is relative when it begins with a dot.
pub open spec fn spec_is_relative(s: Seq<char>) -> bool {
    s.len() > 0 && s[0] == '.'
}

pub fn is_relative_specifier(s: &String) -> (r: bool)
    ensures
        r == spec_is_relative(s@),
{
    let st = s.as_str();
    if st.unicode_len() == 0 {
        false
    } else {
        st.get_char(0) == '.'
    }
}

/// A path extension that the extractor understands: the graph descends only
/// into files carrying one of these.
pub open spec fn spec_eligible(ext: Seq<char>) -> bool {
    ||| ext == "ts"@
    ||| ext == "tsx"@
    ||| ext == "js"@
    ||| ext == "jsx"@
    ||| ext == "json"@
}

pub fn is_eligible_ext(ext: &String) -> (r: bool)
    ensures
        r == spec_eligible(ext@),
{
    ext.eq(&"ts".to_owned()) || ext.eq(&"tsx".to_owned()) || ext.eq(&"js".to_owned())
        || ext.eq(&"jsx".to_owned()) || ext.eq(&"json".to_owned())
}

/// Join a root directory and a root-relative path with a single separator.
pub open spec fn spec_join(root: Seq<char>, rest: Seq<char>) -> Seq<char> {
    if root.len() == 0 {
        rest
    } else if root[root.len() - 1] == '/' {
        root + rest
    } else {
        root + "/"@ + rest
    }
}

pub fn join_under(root: &String, rest: &String) -> (r: String)
    ensures
        r@ == spec_join(root@, rest@),
{
    let rl = root.as_str().unicode_len();
    if rl == 0 {
        return rest.clone();
    }
    let mut out = root.clone();
    if root.as_str().get_char(rl - 1) != '/' {
        out.append("/");
    }
    out.append(rest.as_str());
    out
}

/// The directory holding a path: everything before the last `/`; `/` when the
/// path sits at the root, empty when it holds no separator at all.
pub open spec fn spec_parent_dir(p: Seq<char>) -> Seq<char> {
    let i = last_pos(p, '/');
    if i < 0 {
        Seq::empty()
    } else if i == 0 {
        "/"@
    } else {
        p.subrange(0, i)
    }
}

pub fn parent_dir(p: &String) -> (r: String)
    ensures
        r@ == spec_parent_dir(p@),
{
    proof {
        lemma_last_pos_bounds(p@, '/');
    }
    match find_last(p, '/') {
        None => String::new(),
        Some(i) => {
            if i == 0 {
                "/".to_owned()
            } else {
                p.as_str().substring_char(0, i).to_owned()
            }
        },
    }
}

/// Turning an absolute path back into a root-relative one: defined exactly
/// when the path sits under the root directory.
pub open spec fn spec_strip_root(abs: Seq<char>, root: Seq<char>) -> Option<Seq<char>> {
    if root.len() == 0 {
        Some(abs)
    } else if root[root.len() - 1] == '/' {
        if root.is_prefix_of(abs) {
            Some(abs.subrange(root.len() as int, abs.len() as int))
        } else {
            None
        }
    } else if (root + "/"@).is_prefix_of(abs) {
        Some(abs.subrange(root.len() as int + 1, abs.len() as int))
    } else {
        None
    }
}

pub fn strip_root(abs: &String, root: &String) -> (r: Option<String>)
    ensures
        match r {
            Some(s) => spec_strip_root(abs@, root@) == Some(s@),
            None => spec_strip_root(abs@, root@) is None,
        },
{
    let rl = root.as_str().unicode_len();
    if rl == 0 {
        return Some(abs.clone());
    }
    proof {
        reveal_strlit("/");
    }
    let al = abs.as_str().unicode_len();
    let ends_sep = root.as_str().get_char(rl - 1) == '/';
    let enough = if ends_sep {
        al >= rl
    } else {
        al > rl
    };
    if !enough {
        return None;
    }
    let cut: usize = if ends_sep {
        rl
    } else {
        rl + 1
    };
    let head = abs.as_str().substring_char(0, cut);
    let expected = if ends_sep {
        root.clone()
    } else {
        let mut e = root.clone();
        e.append("/");
        e
    };
    if head.to_owned().eq(&expected) {
        proof {
            assert(expected@.is_prefix_of(abs@));
        }
        Some(abs.as_str().substring_char(cut, al).to_owned())
    } else {
        proof {
            assert(!expected@.is_prefix_of(abs@)) by {
                if expected@.is_prefix_of(abs@) {
                    assert(abs@.subrange(0, cut as int) =~= expected@);
                }
            }
        }
        None
    }
}

/// Membership of a string in a vector of strings, by character content.
pub fn contains_string(v: &Vec<String>, x: &String) -> (r: bool)
    ensures
        r == v@.map_values(|s: String| s@).contains(x@),
{
    let ghost m = v@.map_values(|s: String| s@);
    let mut i: usize = 0;
    while i < v.len()
        invariant
            i <= v.len(),
            m == v@.map_values(|s: String| s@),
            forall|j: int| 0 <= j < i ==> m[j] != x@,
        decreases v.len() - i,
    {
        if v[i].eq(x) {
            proof {
                assert(m[i as int] == x@);
            }
            return true;
        }
        i = i + 1;
    }
    proof {
        assert forall|j: int| 0 <= j < m.len() implies m[j] != x@ by {}
    }
    false
}

} // verus!
