use vstd::prelude::*;

verus! {

/// A file-system path held as its name components, already in canonical form:
/// no `.` or `..` segments and no symlinks. An absolute path keeps its
/// components below the file-system root; a path relative to a scan root keeps
/// the components below that root, so the scan root itself is the empty path.
pub struct DirPath {
    pub parts: Vec<String>,
}

/// The contents of a component list: each component as its character
/// sequence.
pub open spec fn parts_view(ps: Seq<String>) -> Seq<Seq<char>> {
    ps.map_values(|s: String| s@)
}

pub broadcast proof fn lemma_parts_view_len(ps: Seq<String>)
    ensures
        (#[trigger] parts_view(ps)).len() == ps.len(),
{
}

pub broadcast proof fn lemma_parts_view_index(ps: Seq<String>, i: int)
    requires
        0 <= i < ps.len(),
    ensures
        #[trigger] parts_view(ps)[i] == ps[i]@,
{
}

impl View for DirPath {
    type V = Seq<Seq<char>>;

    open spec fn view(&self) -> Seq<Seq<char>> {
        parts_view(self.parts@)
    }
}

/// `pre` is a prefix of `s`: `s` names the same point or one below it.
pub open spec fn is_prefix_of<T>(pre: Seq<T>, s: Seq<T>) -> bool {
    pre.len() <= s.len() && forall|i: int| 0 <= i < pre.len() ==> pre[i] == s[i]
}

/// String equality decided by contents.
pub fn str_eq(a: &String, b: &String) -> (r: bool)
    ensures
        r == (a@ == b@),
{
    a.eq(b)
}

impl DirPath {
    pub open spec fn depth(&self) -> nat {
        self@.len()
    }

    /// An exact copy.
    pub fn duplicate(&self) -> (r: DirPath)
        ensures
            r@ == self@,
            r.parts@ == self.parts@,
    {
        let mut parts: Vec<String> = Vec::new();
        let mut i: usize = 0;
        while i < self.parts.len()
            invariant
                i <= self.parts.len(),
                parts@ == self.parts@.take(i as int),
            decreases self.parts.len() - i,
        {
            parts.push(self.parts[i].clone());
            proof {
                assert(parts@ =~= self.parts@.take(i + 1));
            }
            i = i + 1;
        }
        proof {
            assert(self.parts@.take(self.parts.len() as int) =~= self.parts@);
        }
        DirPath { parts }
    }

    /// The path one level below `self`, named `name`.
    pub fn child(&self, name: String) -> (r: DirPath)
        ensures
            r@ == self@.push(name@),
    {
        broadcast use lemma_parts_view_len, lemma_parts_view_index;

        let mut p = self.duplicate();
        p.parts.push(name);
        proof {
            assert(p.parts@ == self.parts@.push(name));
            assert(p@ =~= self@.push(name@));
        }
        p
    }

    /// Whether `self` is equal to `other`.
    pub fn same_as(&self, other: &DirPath) -> (r: bool)
        ensures
            r == (self@ == other@),
    {
        broadcast use lemma_parts_view_len, lemma_parts_view_index;

        if self.parts.len() != other.parts.len() {
            proof {
                assert(self@.len() != other@.len());
            }
            return false;
        }
        let mut i: usize = 0;
        while i < self.parts.len()
            invariant
                i <= self.parts.len(),
                self.parts.len() == other.parts.len(),
                forall|j: int| 0 <= j < i ==> self@[j] == other@[j],
            decreases self.parts.len() - i,
        {
            if !str_eq(&self.parts[i], &other.parts[i]) {
                assert(self@[i as int] != other@[i as int]);
                return false;
            }
            i = i + 1;
        }
        proof {
            assert(self@ =~= other@);
        }
        true
    }

    /// Whether `self` is `other` itself or a descendant of it.
    pub fn starts_with(&self, other: &DirPath) -> (r: bool)
        ensures
            r == is_prefix_of(other@, self@),
    {
        broadcast use lemma_parts_view_len, lemma_parts_view_index;

        if other.parts.len() > self.parts.len() {
            return false;
        }
        let mut i: usize = 0;
        while i < other.parts.len()
            invariant
                i <= other.parts.len(),
                other.parts.len() <= self.parts.len(),
                forall|j: int| 0 <= j < i ==> other@[j] == self@[j],
            decreases other.parts.len() - i,
        {
            if !str_eq(&other.parts[i], &self.parts[i]) {
                assert(other@[i as int] != self@[i as int]);
                return false;
            }
            i = i + 1;
        }
        true
    }
}

/// The home-directory shorthand: a path whose first component is `~` stands
/// for the home directory followed by the remaining components.
pub open spec fn home_expanded(raw: Seq<Seq<char>>, home: Seq<Seq<char>>) -> Seq<Seq<char>> {
    if raw.len() > 0 && raw[0] == "~"@ {
        home + raw.drop_first()
    } else {
        raw
    }
}

/// Substitutes the home directory for a leading `~` component, as the
/// canonicalizer does before resolving a user-supplied path.
pub fn expand_home(raw: &DirPath, home: &DirPath) -> (r: DirPath)
    ensures
        r@ == home_expanded(raw@, home@),
{
    broadcast use lemma_parts_view_len, lemma_parts_view_index;

    let tilde: String = "~".to_owned();
    if raw.parts.len() > 0 && str_eq(&raw.parts[0], &tilde) {
        proof {
            assert(raw@[0] == "~"@);
        }
        let mut out = home.duplicate();
        proof {
            assert(home.parts@ + raw.parts@.subrange(1, 1) =~= home.parts@);
        }
        let mut i: usize = 1;
        while i < raw.parts.len()
            invariant
                1 <= i <= raw.parts.len(),
                out.parts@ == home.parts@ + raw.parts@.subrange(1, i as int),
            decreases raw.parts.len() - i,
        {
            out.parts.push(raw.parts[i].clone());
            proof {
                assert(out.parts@ =~= home.parts@ + raw.parts@.subrange(1, i + 1));
            }
            i = i + 1;
        }
        proof {
            assert(out.parts@ == home.parts@ + raw.parts@.subrange(
                1,
                raw.parts@.len() as int,
            ));
            assert(out@ =~= home@ + raw@.drop_first());
        }
        out
    } else {
        proof {
            assert(raw@.len() == raw.parts@.len());
            if raw.parts@.len() > 0 {
                assert(raw@[0] == raw.parts@[0]@);
            }
        }
        raw.duplicate()
    }
}

} // verus!
