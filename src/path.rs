use vstd::prelude::*;

verus! {

/// An absolute path, held as the sequence of its components (each a byte
/// string). The root directory is the empty sequence.
#[derive(Clone, Debug, PartialEq, Eq)]
pub struct Path {
    pub comps: Vec<Vec<u8>>,
}

impl View for Path {
    type V = Seq<Seq<u8>>;

    open spec fn view(&self) -> Seq<Seq<u8>> {
        view_comps(self.comps@)
    }
}

/// The components of a path, as byte strings.
pub open spec fn view_comps(s: Seq<Vec<u8>>) -> Seq<Seq<u8>> {
    s.map_values(|c: Vec<u8>| c@)
}

proof fn lemma_view_comps_push(s: Seq<Vec<u8>>, c: Vec<u8>)
    ensures
        view_comps(s.push(c)) == view_comps(s).push(c@),
{
    assert(view_comps(s.push(c)) =~= view_comps(s).push(c@));
}

/// Lexicographic order on byte strings.
pub open spec fn bytes_lt(a: Seq<u8>, b: Seq<u8>) -> bool
    decreases a.len(),
{
    if a.len() == 0 {
        b.len() > 0
    } else if b.len() == 0 {
        false
    } else if a[0] != b[0] {
        a[0] < b[0]
    } else {
        bytes_lt(a.drop_first(), b.drop_first())
    }
}

/// Lexicographic order on paths, component by component.
pub open spec fn path_lt(a: Seq<Seq<u8>>, b: Seq<Seq<u8>>) -> bool
    decreases a.len(),
{
    if a.len() == 0 {
        b.len() > 0
    } else if b.len() == 0 {
        false
    } else if a[0] != b[0] {
        bytes_lt(a[0], b[0])
    } else {
        path_lt(a.drop_first(), b.drop_first())
    }
}

/// `pre` is an ancestor of `p`, or `p` itself.
pub open spec fn is_prefix(pre: Seq<Seq<u8>>, p: Seq<Seq<u8>>) -> bool {
    pre.len() <= p.len() && p.subrange(0, pre.len() as int) == pre
}

/// The part of `p` below its ancestor `pre`.
pub open spec fn strip(p: Seq<Seq<u8>>, pre: Seq<Seq<u8>>) -> Seq<Seq<u8>> {
    p.subrange(pre.len() as int, p.len() as int)
}

/// The parent of `p`, or `p` itself where `p` is the root.
pub open spec fn parent_of(p: Seq<Seq<u8>>) -> Seq<Seq<u8>> {
    if p.len() == 0 {
        p
    } else {
        p.drop_last()
    }
}

pub proof fn lemma_bytes_lt_total(a: Seq<u8>, b: Seq<u8>)
    ensures
        a != b ==> bytes_lt(a, b) || bytes_lt(b, a),
        !(bytes_lt(a, b) && bytes_lt(b, a)),
    decreases a.len(),
{
    if a.len() > 0 && b.len() > 0 && a[0] == b[0] {
        lemma_bytes_lt_total(a.drop_first(), b.drop_first());
        if a.drop_first() == b.drop_first() {
            assert forall|k: int| 0 <= k < a.len() implies a[k] == b[k] by {
                if k > 0 {
                    assert(a[k] == a.drop_first()[k - 1]);
                    assert(b[k] == b.drop_first()[k - 1]);
                }
            }
            assert(a =~= b);
        }
    }
    if a.len() == 0 && b.len() == 0 {
        assert(a =~= b);
    }
}

pub proof fn lemma_bytes_lt_trans(a: Seq<u8>, b: Seq<u8>, c: Seq<u8>)
    requires
        bytes_lt(a, b),
        bytes_lt(b, c),
    ensures
        bytes_lt(a, c),
    decreases a.len(),
{
    if a.len() > 0 && b.len() > 0 && c.len() > 0 && a[0] == b[0] && b[0] == c[0] {
        lemma_bytes_lt_trans(a.drop_first(), b.drop_first(), c.drop_first());
    }
}

pub proof fn lemma_path_lt_irrefl(a: Seq<Seq<u8>>)
    ensures
        !path_lt(a, a),
    decreases a.len(),
{
    if a.len() > 0 {
        lemma_path_lt_irrefl(a.drop_first());
    }
}

/// Of two paths, exactly one is smaller, unless they are equal.
pub proof fn lemma_path_lt_total(a: Seq<Seq<u8>>, b: Seq<Seq<u8>>)
    ensures
        a != b ==> path_lt(a, b) || path_lt(b, a),
        !(path_lt(a, b) && path_lt(b, a)),
    decreases a.len(),
{
    if a.len() > 0 && b.len() > 0 {
        lemma_bytes_lt_total(a[0], b[0]);
        if a[0] == b[0] {
            lemma_path_lt_total(a.drop_first(), b.drop_first());
            if a.drop_first() == b.drop_first() {
                assert forall|k: int| 0 <= k < a.len() implies a[k] == b[k] by {
                    if k > 0 {
                        assert(a[k] == a.drop_first()[k - 1]);
                        assert(b[k] == b.drop_first()[k - 1]);
                    }
                }
                assert(a =~= b);
            }
        }
    }
    if a.len() == 0 && b.len() == 0 {
        assert(a =~= b);
    }
}

pub proof fn lemma_path_lt_trans(a: Seq<Seq<u8>>, b: Seq<Seq<u8>>, c: Seq<Seq<u8>>)
    requires
        path_lt(a, b),
        path_lt(b, c),
    ensures
        path_lt(a, c),
    decreases a.len(),
{
    if a.len() > 0 && b.len() > 0 && c.len() > 0 {
        if a[0] == b[0] && b[0] == c[0] {
            lemma_path_lt_trans(a.drop_first(), b.drop_first(), c.drop_first());
        } else if a[0] == b[0] {
        } else if b[0] == c[0] {
        } else {
            lemma_bytes_lt_trans(a[0], b[0], c[0]);
            lemma_bytes_lt_total(a[0], c[0]);
        }
    }
}

proof fn lemma_bytes_lt_skip(a: Seq<u8>, b: Seq<u8>, i: int)
    requires
        0 <= i < a.len(),
        i < b.len(),
        a[i] == b[i],
    ensures
        bytes_lt(a.skip(i), b.skip(i)) == bytes_lt(a.skip(i + 1), b.skip(i + 1)),
{
    assert(a.skip(i).drop_first() =~= a.skip(i + 1));
    assert(b.skip(i).drop_first() =~= b.skip(i + 1));
}

proof fn lemma_path_lt_skip(a: Seq<Seq<u8>>, b: Seq<Seq<u8>>, i: int)
    requires
        0 <= i < a.len(),
        i < b.len(),
        a[i] == b[i],
    ensures
        path_lt(a.skip(i), b.skip(i)) == path_lt(a.skip(i + 1), b.skip(i + 1)),
{
    assert(a.skip(i).drop_first() =~= a.skip(i + 1));
    assert(b.skip(i).drop_first() =~= b.skip(i + 1));
}

/// Whether two byte strings are equal.
pub fn bytes_eq(a: &Vec<u8>, b: &Vec<u8>) -> (r: bool)
    ensures
        r == (a@ == b@),
{
    if a.len() != b.len() {
        return false;
    }
    let mut i: usize = 0;
    while i < a.len()
        invariant
            a@.len() == b@.len(),
            i <= a@.len(),
            forall|j: int| 0 <= j < i ==> a@[j] == b@[j],
        decreases a@.len() - i,
    {
        if a[i] != b[i] {
            return false;
        }
        i = i + 1;
    }
    assert(a@ =~= b@);
    true
}

/// Whether `a` comes before `b` in lexicographic order.
pub fn bytes_less(a: &Vec<u8>, b: &Vec<u8>) -> (r: bool)
    ensures
        r == bytes_lt(a@, b@),
{
    let mut i: usize = 0;
    assert(a@.skip(0) =~= a@ && b@.skip(0) =~= b@);
    while i < a.len() && i < b.len()
        invariant
            i <= a@.len(),
            i <= b@.len(),
            bytes_lt(a@, b@) == bytes_lt(a@.skip(i as int), b@.skip(i as int)),
        decreases a@.len() - i,
    {
        if a[i] != b[i] {
            return a[i] < b[i];
        }
        proof {
            lemma_bytes_lt_skip(a@, b@, i as int);
        }
        i = i + 1;
    }
    i == a.len() && i < b.len()
}

/// A fresh copy of a byte string.
pub fn copy_bytes(a: &Vec<u8>) -> (r: Vec<u8>)
    ensures
        r@ == a@,
{
    let mut r: Vec<u8> = Vec::new();
    let mut i: usize = 0;
    while i < a.len()
        invariant
            i <= a@.len(),
            r@ == a@.subrange(0, i as int),
        decreases a@.len() - i,
    {
        r.push(a[i]);
        i = i + 1;
        assert(r@ =~= a@.subrange(0, i as int));
    }
    assert(a@.subrange(0, a@.len() as int) =~= a@);
    r
}

impl Path {
    /// The root directory.
    pub fn root() -> (r: Path)
        ensures
            r@ == Seq::<Seq<u8>>::empty(),
    {
        let r = Path { comps: Vec::new() };
        assert(r@ =~= Seq::<Seq<u8>>::empty());
        r
    }

    /// The path one level below `self`, at the child `name`.
    pub fn child(&self, name: &Vec<u8>) -> (r: Path)
        ensures
            r@ == self@.push(name@),
    {
        let mut r = self.copy();
        let c = copy_bytes(name);
        r.comps.push(c);
        assert(r@ =~= self@.push(name@));
        r
    }

    pub fn len(&self) -> (r: usize)
        ensures
            r == self@.len(),
    {
        self.comps.len()
    }

    /// A fresh copy of the path.
    pub fn copy(&self) -> (r: Path)
        ensures
            r@ == self@,
    {
        self.join_from(&Path { comps: Vec::new() }, 0)
    }

    /// The path `self` followed by the components of `p` from index `from` on.
    pub fn join_from(&self, p: &Path, from: usize) -> (r: Path)
        requires
            from <= p@.len(),
        ensures
            r@ == self@ + p@.subrange(from as int, p@.len() as int),
    {
        let mut comps: Vec<Vec<u8>> = Vec::new();
        let mut i: usize = 0;
        while i < self.comps.len()
            invariant
                i <= self@.len(),
                view_comps(comps@) == self@.subrange(0, i as int),
            decreases self@.len() - i,
        {
            let c = copy_bytes(&self.comps[i]);
            proof {
                lemma_view_comps_push(comps@, c);
            }
            comps.push(c);
            i = i + 1;
            assert(view_comps(comps@) =~= self@.subrange(0, i as int));
        }
        let mut j: usize = from;
        while j < p.comps.len()
            invariant
                from <= j <= p@.len(),
                view_comps(comps@) == self@ + p@.subrange(from as int, j as int),
            decreases p@.len() - j,
        {
            let c = copy_bytes(&p.comps[j]);
            proof {
                lemma_view_comps_push(comps@, c);
            }
            comps.push(c);
            j = j + 1;
            assert(view_comps(comps@) =~= self@ + p@.subrange(
                from as int,
                j as int,
            ));
        }
        let r = Path { comps };
        assert(self@.subrange(0, self@.len() as int) =~= self@);
        r
    }

    /// Whether the two paths are equal.
    pub fn same(&self, o: &Path) -> (r: bool)
        ensures
            r == (self@ == o@),
    {
        if self.comps.len() != o.comps.len() {
            return false;
        }
        let mut i: usize = 0;
        while i < self.comps.len()
            invariant
                self@.len() == o@.len(),
                i <= self@.len(),
                forall|j: int| 0 <= j < i ==> self@[j] == o@[j],
            decreases self@.len() - i,
        {
            if !bytes_eq(&self.comps[i], &o.comps[i]) {
                assert(self@[i as int] != o@[i as int]);
                return false;
            }
            i = i + 1;
        }
        assert(self@ =~= o@);
        true
    }

    /// Whether `self` comes before `o` in lexicographic order.
    pub fn less(&self, o: &Path) -> (r: bool)
        ensures
            r == path_lt(self@, o@),
    {
        let mut i: usize = 0;
        assert(self@.skip(0) =~= self@ && o@.skip(0) =~= o@);
        while i < self.comps.len() && i < o.comps.len()
            invariant
                i <= self@.len(),
                i <= o@.len(),
                path_lt(self@, o@) == path_lt(self@.skip(i as int), o@.skip(i as int)),
            decreases self@.len() - i,
        {
            if !bytes_eq(&self.comps[i], &o.comps[i]) {
                let r = bytes_less(&self.comps[i], &o.comps[i]);
                assert(self@.skip(i as int)[0] == self@[i as int]);
                assert(o@.skip(i as int)[0] == o@[i as int]);
                return r;
            }
            proof {
                lemma_path_lt_skip(self@, o@, i as int);
            }
            i = i + 1;
        }
        i == self.comps.len() && i < o.comps.len()
    }

    /// Whether `pre` is `self` or one of its ancestors.
    pub fn starts_with(&self, pre: &Path) -> (r: bool)
        ensures
            r == is_prefix(pre@, self@),
    {
        if pre.comps.len() > self.comps.len() {
            return false;
        }
        let mut i: usize = 0;
        while i < pre.comps.len()
            invariant
                pre@.len() <= self@.len(),
                i <= pre@.len(),
                forall|j: int| 0 <= j < i ==> self@[j] == pre@[j],
            decreases pre@.len() - i,
        {
            if !bytes_eq(&self.comps[i], &pre.comps[i]) {
                assert(self@.subrange(0, pre@.len() as int)[i as int] == self@[i as int]);
                return false;
            }
            i = i + 1;
        }
        assert(self@.subrange(0, pre@.len() as int) =~= pre@);
        true
    }

    /// The parent directory, or the path itself where it is the root.
    pub fn parent_or_self(&self) -> (r: Path)
        ensures
            r@ == parent_of(self@),
    {
        let mut r = self.copy();
        if r.comps.len() > 0 {
            r.comps.pop();
            assert(r@ =~= self@.drop_last());
        }
        r
    }
}

} // verus!
