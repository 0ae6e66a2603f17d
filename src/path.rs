use vstd::prelude::*;

verus! {

/// A segment that names an entry: neither empty (a repeated or trailing
/// separator) nor the current-directory marker `.`.
pub open spec fn is_named(seg: Seq<char>) -> bool {
    seg.len() > 0 && seg != seq!['.']
}

/// The state after reading `s` from the left: the named segments that a
/// separator has closed, and the segment still open.
pub open spec fn scan(s: Seq<char>) -> (Seq<Seq<char>>, Seq<char>)
    decreases s.len(),
{
    if s.len() == 0 {
        (seq![], seq![])
    } else {
        let (done, cur) = scan(s.drop_last());
        if s.last() == '/' {
            (if is_named(cur) { done.push(cur) } else { done }, seq![])
        } else {
            (done, cur.push(s.last()))
        }
    }
}

/// The named segments of a path, in order: separators, empty segments and
/// `.` segments are dropped.
pub open spec fn components(s: Seq<char>) -> Seq<Seq<char>> {
    let (done, cur) = scan(s);
    if is_named(cur) {
        done.push(cur)
    } else {
        done
    }
}

/// The path starts at the root.
pub open spec fn has_root(s: Seq<char>) -> bool {
    s.len() > 0 && s[0] == '/'
}

/// A relative path that starts with an explicit `.` segment.
pub open spec fn has_cur_dir(s: Seq<char>) -> bool {
    !has_root(s) && s.len() > 0 && s[0] == '.' && (s.len() == 1 || s[1] == '/')
}

/// Two spellings of one path: the same start and the same named segments.
pub open spec fn same_path(a: Seq<char>, b: Seq<char>) -> bool {
    has_root(a) == has_root(b) && has_cur_dir(a) == has_cur_dir(b) && components(a)
        == components(b)
}

/// The last segment of a path, where it names an entry (not `..`, and the
/// path is not the root or the current directory alone).
pub open spec fn base_name(s: Seq<char>) -> Option<Seq<char>> {
    let c = components(s);
    if c.len() == 0 || c.last() == seq!['.', '.'] {
        None
    } else {
        Some(c.last())
    }
}

/// `name` placed inside the directory `dir`, with one separator between them.
pub open spec fn joined(dir: Seq<char>, name: Seq<char>) -> Seq<char> {
    if dir.len() == 0 {
        name
    } else if dir.last() == '/' {
        dir + name
    } else {
        dir + seq!['/'] + name
    }
}

fn segment_is_named(seg: &str) -> (r: bool)
    ensures
        r == is_named(seg@),
{
    let n = seg.unicode_len();
    if n == 0 {
        false
    } else if n == 1 && seg.get_char(0) == '.' {
        assert(seg@ =~= seq!['.']);
        false
    } else {
        assert(seg@.len() != 1 ==> seg@ != seq!['.']);
        true
    }
}

/// The named segments of `s`.
pub fn components_of(s: &str) -> (r: Vec<String>)
    ensures
        r.deep_view() == components(s@),
{
    let n = s.unicode_len();
    let mut r: Vec<String> = Vec::new();
    let mut start: usize = 0;
    let mut i: usize = 0;
    assert(s@.take(0) =~= seq![]);
    while i < n
        invariant
            n == s@.len(),
            start <= i <= n,
            scan(s@.take(i as int)) == (r.deep_view(), s@.subrange(start as int, i as int)),
        decreases n - i,
    {
        let c = s.get_char(i);
        let ghost prev = s@.take(i as int);
        assert(s@.take(i + 1).drop_last() =~= prev);
        if c == '/' {
            let seg = s.substring_char(start, i);
            if segment_is_named(seg) {
                let ghost old_r = r.deep_view();
                r.push(String::from_str(seg));
                assert(r.deep_view() =~= old_r.push(seg@));
            }
            start = i + 1;
            assert(s@.subrange(start as int, i + 1) =~= seq![]);
        } else {
            assert(s@.subrange(start as int, i + 1) =~= s@.subrange(start as int, i as int).push(c));
        }
        i = i + 1;
    }
    assert(s@.take(n as int) =~= s@);
    let last = s.substring_char(start, n);
    if segment_is_named(last) {
        let ghost old_r = r.deep_view();
        r.push(String::from_str(last));
        assert(r.deep_view() =~= old_r.push(last@));
    }
    r
}

fn starts_at_root(s: &str) -> (r: bool)
    ensures
        r == has_root(s@),
{
    s.unicode_len() > 0 && s.get_char(0) == '/'
}

fn starts_at_cur_dir(s: &str) -> (r: bool)
    ensures
        r == has_cur_dir(s@),
{
    let n = s.unicode_len();
    n > 0 && s.get_char(0) == '.' && (n == 1 || s.get_char(1) == '/')
}

fn same_segments(a: &Vec<String>, b: &Vec<String>) -> (r: bool)
    ensures
        r == (a.deep_view() == b.deep_view()),
{
    if a.len() != b.len() {
        assert(a.deep_view().len() != b.deep_view().len());
        return false;
    }
    let mut i: usize = 0;
    while i < a.len()
        invariant
            a.len() == b.len(),
            i <= a.len(),
            forall|k: int| 0 <= k < i ==> a@[k]@ == b@[k]@,
        decreases a.len() - i,
    {
        if a[i] != b[i] {
            assert(a.deep_view()[i as int] != b.deep_view()[i as int]);
            return false;
        }
        i = i + 1;
    }
    assert(a.deep_view() =~= b.deep_view());
    true
}

/// Whether `a` and `b` spell the same path.
pub fn is_same_path(a: &str, b: &str) -> (r: bool)
    ensures
        r == same_path(a@, b@),
{
    starts_at_root(a) == starts_at_root(b) && starts_at_cur_dir(a) == starts_at_cur_dir(b)
        && same_segments(&components_of(a), &components_of(b))
}

/// The last segment of `s`, where it names an entry.
pub fn base_name_of(s: &str) -> (r: Option<String>)
    ensures
        r.deep_view() == base_name(s@),
{
    let mut c = components_of(s);
    let ghost cv = c.deep_view();
    match c.pop() {
        None => {
            assert(cv.len() == 0);
            None
        },
        Some(last) => {
            assert(cv.last() == last@);
            let t = last.as_str();
            if t.unicode_len() == 2 && t.get_char(0) == '.' && t.get_char(1) == '.' {
                assert(t@ =~= seq!['.', '.']);
                None
            } else {
                assert(t@.len() != 2 ==> t@ != seq!['.', '.']);
                Some(last)
            }
        },
    }
}

/// `name` placed inside the directory `dir`.
pub fn join_path(dir: &str, name: &str) -> (r: String)
    ensures
        r@ == joined(dir@, name@),
{
    let n = dir.unicode_len();
    if n == 0 {
        String::from_str(name)
    } else if dir.get_char(n - 1) == '/' {
        String::from_str(dir).concat(name)
    } else {
        proof {
            reveal_strlit("/");
        }
        let with_sep = String::from_str(dir).concat("/");
        assert(with_sep@ =~= dir@ + seq!['/']);
        with_sep.concat(name)
    }
}

/// The file name `<base>.<extension>`.
pub fn file_name_for(base: &str, extension: &str) -> (r: String)
    ensures
        r@ == base@ + seq!['.'] + extension@,
{
    proof {
        reveal_strlit(".");
    }
    let stem = String::from_str(base).concat(".");
    assert(stem@ =~= base@ + seq!['.']);
    stem.concat(extension)
}

} // verus!
