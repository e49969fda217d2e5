//! Paths inside a database directory.
//!
//! Always relative to a root the storage backend owns: the engine cannot name a file outside it.
use vstd::prelude::*;
use vstd::slice::slice_subrange;
use vstd::utf8::*;

verus! {

/// The longest a path component may be, in bytes.
pub const MAX_COMPONENT_LEN: usize = 255;

/// Why a path was rejected.
#[derive(Debug, Clone, Copy, PartialEq, Eq, Structural)]
pub enum PathRejection {
    /// A component was empty.
    Empty,
    /// A component was `.` or `..`.
    Relative,
    /// A component exceeded the length limit.
    TooLong,
    /// A component contained a backslash or a NUL.
    Separator,
}

/// A validated path below the database root.
#[derive(Debug, PartialEq, Eq)]
pub struct DbPath {
    text: String,
}

impl View for DbPath {
    type V = Seq<char>;

    closed spec fn view(&self) -> Seq<char> {
        self.text@
    }
}

/// The text of the root: no components.
pub open spec fn root_text() -> Seq<char> {
    Seq::empty()
}

/// How a path reads in a message.
pub open spec fn path_text(p: Seq<char>) -> Seq<char> {
    if p.len() == 0 {
        "."@
    } else {
        p
    }
}

/// How long the first component of a path is.
pub open spec fn component_len(p: Seq<u8>) -> nat
    decreases p.len(),
{
    if p.len() == 0 || p[0] == 0x2f {
        0
    } else {
        1 + component_len(p.skip(1))
    }
}

/// Whether a component holds a backslash or a NUL.
pub open spec fn has_separator(c: Seq<u8>) -> bool {
    exists|i: int| 0 <= i < c.len() && (#[trigger] c[i] == 0x5c || c[i] == 0)
}

/// What is wrong with one component, if anything.
pub open spec fn component_rejected(c: Seq<u8>) -> Option<PathRejection> {
    if c.len() == 0 {
        Some(PathRejection::Empty)
    } else if c =~= seq![0x2eu8] || c =~= seq![0x2eu8, 0x2eu8] {
        Some(PathRejection::Relative)
    } else if c.len() > MAX_COMPONENT_LEN {
        Some(PathRejection::TooLong)
    } else if has_separator(c) {
        Some(PathRejection::Separator)
    } else {
        None
    }
}

/// What is wrong with the first bad component of a path, if anything.
pub open spec fn path_rejected(p: Seq<u8>) -> Option<PathRejection>
    decreases p.len(),
{
    let n = component_len(p) as int;
    match component_rejected(p.take(n)) {
        Some(r) => Some(r),
        None => if n >= p.len() {
            None
        } else {
            path_rejected(p.skip(n + 1))
        },
    }
}

fn check_component(c: &[u8]) -> (r: Option<PathRejection>)
    ensures
        r == component_rejected(c@),
{
    if c.len() == 0 {
        return Some(PathRejection::Empty);
    }
    if c[0] == 0x2e && (c.len() == 1 || (c.len() == 2 && c[1] == 0x2e)) {
        assert(c@ =~= seq![0x2eu8] || c@ =~= seq![0x2eu8, 0x2eu8]);
        return Some(PathRejection::Relative);
    }
    assert(!(c@ =~= seq![0x2eu8]) && !(c@ =~= seq![0x2eu8, 0x2eu8]));
    if c.len() > MAX_COMPONENT_LEN {
        return Some(PathRejection::TooLong);
    }
    let mut i: usize = 0;
    while i < c.len()
        invariant
            i <= c@.len(),
            forall|j: int| 0 <= j < i ==> #[trigger] c@[j] != 0x5c && c@[j] != 0,
            c@.len() > 0,
            !(c@ =~= seq![0x2eu8]),
            !(c@ =~= seq![0x2eu8, 0x2eu8]),
            c@.len() <= MAX_COMPONENT_LEN,
        decreases c.len() - i,
    {
        if c[i] == 0x5c || c[i] == 0 {
            return Some(PathRejection::Separator);
        }
        i += 1;
    }
    None
}

impl DbPath {
    /// The database root itself.
    pub fn root() -> (r: Self)
        ensures
            r@ == root_text(),
    {
        let text = String::new();
        assert(text@ =~= root_text());
        DbPath { text }
    }

    /// Check a path of `/`-separated components.
    ///
    /// # Errors
    /// What is wrong with the first bad component.
    pub fn parse(text: &str) -> (r: Result<Self, PathRejection>)
        ensures
            match path_rejected(encode_utf8(text@)) {
                Some(e) => r == Err::<Self, PathRejection>(e),
                None => r matches Ok(p) && p@ == text@,
            },
    {
        let p = text.as_bytes();
        let mut start: usize = 0;
        assert(p@.skip(0) =~= p@);
        loop
            invariant
                start <= p@.len(),
                p@ == encode_utf8(text@),
                path_rejected(p@) == path_rejected(p@.skip(start as int)),
            decreases p.len() - start,
        {
            let mut end: usize = start;
            while end < p.len() && p[end] != 0x2f
                invariant
                    start <= end <= p@.len(),
                    component_len(p@.skip(start as int)) == (end - start) + component_len(
                        p@.skip(end as int),
                    ),
                decreases p.len() - end,
            {
                assert(p@.skip(end as int).skip(1) =~= p@.skip(end + 1));
                end += 1;
            }
            let c = slice_subrange(p, start, end);
            proof {
                let q = p@.skip(start as int);
                assert(q.take(component_len(q) as int) =~= c@);
                if end < p@.len() {
                    assert(q.skip(component_len(q) as int + 1) =~= p@.skip(end + 1));
                }
            }
            if let Some(e) = check_component(c) {
                return Err(e);
            }
            if end == p.len() {
                return Ok(DbPath { text: text.to_owned() });
            }
            start = end + 1;
        }
    }

    /// The path as text.
    pub fn as_str(&self) -> (r: &str)
        ensures
            r@ == self@,
    {
        self.text.as_str()
    }

    /// The path as it reads in a message.
    pub fn shown(&self) -> (r: &str)
        ensures
            r@ == path_text(self@),
    {
        if self.text.as_str().is_empty() {
            "."
        } else {
            self.text.as_str()
        }
    }
}

impl Clone for DbPath {
    fn clone(&self) -> (r: Self)
        ensures
            r@ == self@,
    {
        DbPath { text: self.text.as_str().to_owned() }
    }
}

impl PathRejection {
    /// How this reads in a message.
    pub open spec fn text(self) -> Seq<char> {
        match self {
            PathRejection::Empty => "has an empty component"@,
            PathRejection::Relative => "has a relative component"@,
            PathRejection::TooLong => "has a component that is too long"@,
            PathRejection::Separator => "has a component that contains a separator"@,
        }
    }

    /// How this reads in a message.
    pub fn label(&self) -> (r: &'static str)
        ensures
            r@ == self.text(),
    {
        match self {
            PathRejection::Empty => "has an empty component",
            PathRejection::Relative => "has a relative component",
            PathRejection::TooLong => "has a component that is too long",
            PathRejection::Separator => "has a component that contains a separator",
        }
    }
}

/// Whether bytes `i` to `j` of a path are one of its components: what stands between two slashes, or
/// at an end.
pub open spec fn is_component(p: Seq<u8>, i: int, j: int) -> bool {
    &&& 0 <= i <= j <= p.len()
    &&& i == 0 || p[i - 1] == 0x2f
    &&& j == p.len() || p[j] == 0x2f
    &&& forall|k: int| i <= k < j ==> #[trigger] p[k] != 0x2f
}

/// A path is accepted exactly where each of its components is: none is empty, none is `.` or `..`,
/// none is longer than 255 bytes, and none holds a backslash or a NUL.
pub proof fn lemma_accepted_paths(p: Seq<u8>)
    ensures
        path_rejected(p) is None <==> forall|i: int, j: int| #[trigger]
            is_component(p, i, j) ==> {
                let c = p.subrange(i, j);
                &&& 0 < c.len() <= 255
                &&& c != seq![0x2eu8]
                &&& c != seq![0x2eu8, 0x2eu8]
                &&& forall|k: int| 0 <= k < c.len() ==> #[trigger] c[k] != 0x5c && c[k] != 0
            },
    decreases p.len(),
{
    let n = component_len(p) as int;
    lemma_component_end(p);
    let first = p.take(n);
    assert(is_component(p, 0, n));
    assert(p.subrange(0, n) =~= first);
    let good = |c: Seq<u8>|
        {
            &&& 0 < c.len() <= 255
            &&& c != seq![0x2eu8]
            &&& c != seq![0x2eu8, 0x2eu8]
            &&& forall|k: int| 0 <= k < c.len() ==> #[trigger] c[k] != 0x5c && c[k] != 0
        };
    assert(component_rejected(first) is None <==> good(first)) by {
        if has_separator(first) {
            let k = choose|k: int|
                0 <= k < first.len() && (#[trigger] first[k] == 0x5c || first[k] == 0);
            assert(!(first[k] != 0x5c && first[k] != 0));
        } else {
            assert forall|k: int| 0 <= k < first.len() implies #[trigger] first[k] != 0x5c
                && first[k] != 0 by {}
        }
    }
    if n < p.len() {
        let rest = p.skip(n + 1);
        lemma_accepted_paths(rest);
        if path_rejected(p) is None {
            assert forall|i: int, j: int| #[trigger] is_component(p, i, j) implies good(
                p.subrange(i, j),
            ) by {
                if i <= n {
                    assert(i == 0) by {
                        if i > 0 {
                            assert(p[i - 1] == 0x2f);
                        }
                    }
                    assert(j == n) by {
                        if j < n {
                            assert(p[j] == 0x2f);
                        } else if j > n {
                            assert(p[n] != 0x2f);
                        }
                    }
                } else {
                    lemma_component_behind(p, n, i, j);
                    assert(is_component(rest, i - n - 1, j - n - 1));
                    assert(p.subrange(i, j) =~= rest.subrange(i - n - 1, j - n - 1));
                }
            }
        }
        if forall|i: int, j: int| #[trigger]
            is_component(p, i, j) ==> good(p.subrange(i, j)) {
            assert forall|i: int, j: int| #[trigger] is_component(rest, i, j) implies good(
                rest.subrange(i, j),
            ) by {
                assert forall|k: int| i + n + 1 <= k < j + n + 1 implies #[trigger] p[k] != 0x2f by {
                    assert(rest[k - n - 1] == p[k]);
                }
                if i > 0 {
                    assert(rest[i - 1] == p[i + n]);
                }
                if j < rest.len() {
                    assert(rest[j] == p[j + n + 1]);
                }
                assert(is_component(p, i + n + 1, j + n + 1));
                assert(p.subrange(i + n + 1, j + n + 1) =~= rest.subrange(i, j));
            }
            assert(good(p.subrange(0, n)));
        }
    } else {
        assert forall|i: int, j: int| #[trigger] is_component(p, i, j) implies i == 0 && j == n by {
            if i > 0 {
                assert(p[i - 1] == 0x2f);
            }
            if j < n {
                assert(p[j] == 0x2f);
            }
        }
        if forall|i: int, j: int| #[trigger]
            is_component(p, i, j) ==> good(p.subrange(i, j)) {
            assert(good(p.subrange(0, n)));
        }
    }
}

proof fn lemma_component_behind(p: Seq<u8>, n: int, i: int, j: int)
    requires
        0 <= n < i,
        n < p.len(),
        p[n] == 0x2f,
        is_component(p, i, j),
    ensures
        is_component(p.skip(n + 1), i - n - 1, j - n - 1),
{
    let rest = p.skip(n + 1);
    assert forall|k: int| i - n - 1 <= k < j - n - 1 implies #[trigger] rest[k] != 0x2f by {
        assert(rest[k] == p[k + n + 1]);
    }
    if i - n - 1 > 0 {
        assert(rest[i - n - 2] == p[i - 1]);
    }
    if j < p.len() {
        assert(rest[j - n - 1] == p[j]);
    }
}

proof fn lemma_component_end(p: Seq<u8>)
    ensures
        component_len(p) <= p.len(),
        forall|k: int| 0 <= k < component_len(p) ==> #[trigger] p[k] != 0x2f,
        component_len(p) < p.len() ==> p[component_len(p) as int] == 0x2f,
    decreases p.len(),
{
    if p.len() > 0 && p[0] != 0x2f {
        let rest = p.skip(1);
        lemma_component_end(rest);
        assert forall|k: int| 0 <= k < component_len(p) implies #[trigger] p[k] != 0x2f by {
            if k > 0 {
                assert(p[k] == rest[k - 1]);
            }
        }
        if component_len(p) < p.len() {
            assert(p[component_len(p) as int] == rest[component_len(rest) as int]);
        }
    }
}

} // verus!
