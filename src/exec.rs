use vstd::prelude::*;

verus! {

/// A command with positional and named arguments.
#[derive(Clone, Debug, PartialEq, Eq)]
pub struct Exec {
    pub cmd: String,
    pub args: Vec<String>,
    /// Named options, each name once.
    pub named: Vec<(String, String)>,
}

pub open spec fn pairs_view(s: Seq<(String, String)>) -> Seq<(Seq<char>, Seq<char>)> {
    s.map_values(|kv: (String, String)| (kv.0@, kv.1@))
}

pub open spec fn strings_view(s: Seq<String>) -> Seq<Seq<char>> {
    s.map_values(|a: String| a@)
}

pub open spec fn names_unique(s: Seq<(Seq<char>, Seq<char>)>) -> bool {
    forall|i: int, j: int|
        0 <= i < s.len() && 0 <= j < s.len() && i != j ==> #[trigger] s[i].0 != #[trigger] s[j].0
}

pub open spec fn has_name(s: Seq<(Seq<char>, Seq<char>)>, k: Seq<char>) -> bool {
    exists|i: int| 0 <= i < s.len() && #[trigger] s[i].0 == k
}

pub open spec fn value_of(s: Seq<(Seq<char>, Seq<char>)>, k: Seq<char>) -> Seq<char> {
    s[choose|i: int| 0 <= i < s.len() && #[trigger] s[i].0 == k].1
}

/// The map that inserting the pairs of `s` in order gives.
pub open spec fn fold_pairs(s: Seq<(Seq<char>, Seq<char>)>) -> Map<Seq<char>, Seq<char>>
    decreases s.len(),
{
    if s.len() == 0 {
        Map::empty()
    } else {
        fold_pairs(s.drop_last()).insert(s.last().0, s.last().1)
    }
}

/// The named options as a map from name to value.
pub open spec fn named_map(s: Seq<(Seq<char>, Seq<char>)>) -> Map<Seq<char>, Seq<char>> {
    Map::new(|k: Seq<char>| has_name(s, k), |k: Seq<char>| value_of(s, k))
}

proof fn lemma_value_at(s: Seq<(Seq<char>, Seq<char>)>, i: int)
    requires
        names_unique(s),
        0 <= i < s.len(),
    ensures
        named_map(s).dom().contains(s[i].0),
        named_map(s)[s[i].0] == s[i].1,
{
    assert(has_name(s, s[i].0));
    let j = choose|j: int| 0 <= j < s.len() && #[trigger] s[j].0 == s[i].0;
    assert(j == i);
}

proof fn lemma_set_value(s: Seq<(Seq<char>, Seq<char>)>, i: int, v: Seq<char>)
    requires
        names_unique(s),
        0 <= i < s.len(),
    ensures
        names_unique(s.update(i, (s[i].0, v))),
        named_map(s.update(i, (s[i].0, v))) == named_map(s).insert(s[i].0, v),
{
    let t = s.update(i, (s[i].0, v));
    assert forall|a: int, b: int| 0 <= a < t.len() && 0 <= b < t.len() && a != b implies #[trigger] t[a].0
        != #[trigger] t[b].0 by {
        assert(t[a].0 == s[a].0 && t[b].0 == s[b].0);
    }
    let m = named_map(s).insert(s[i].0, v);
    assert forall|q: Seq<char>| named_map(t).dom().contains(q) <==> m.dom().contains(q) by {
        if has_name(t, q) {
            let a = choose|a: int| 0 <= a < t.len() && #[trigger] t[a].0 == q;
            assert(s[a].0 == q);
        }
        if has_name(s, q) {
            let a = choose|a: int| 0 <= a < s.len() && #[trigger] s[a].0 == q;
            assert(t[a].0 == q);
        }
        if q == s[i].0 {
            assert(t[i].0 == q);
        }
    }
    assert forall|q: Seq<char>| #[trigger] named_map(t).dom().contains(q) implies named_map(t)[q]
        == m[q] by {
        let a = choose|a: int| 0 <= a < t.len() && #[trigger] t[a].0 == q;
        lemma_value_at(t, a);
        if a != i {
            lemma_value_at(s, a);
        }
    }
    assert(named_map(t) =~= m);
}

proof fn lemma_push_pair(s: Seq<(Seq<char>, Seq<char>)>, k: Seq<char>, v: Seq<char>)
    requires
        names_unique(s),
        !has_name(s, k),
    ensures
        names_unique(s.push((k, v))),
        named_map(s.push((k, v))) == named_map(s).insert(k, v),
{
    let t = s.push((k, v));
    assert forall|a: int, b: int| 0 <= a < t.len() && 0 <= b < t.len() && a != b implies #[trigger] t[a].0
        != #[trigger] t[b].0 by {
        if a < s.len() {
            assert(t[a] == s[a]);
        }
        if b < s.len() {
            assert(t[b] == s[b]);
        }
    }
    let m = named_map(s).insert(k, v);
    assert forall|q: Seq<char>| named_map(t).dom().contains(q) <==> m.dom().contains(q) by {
        if has_name(t, q) {
            let a = choose|a: int| 0 <= a < t.len() && #[trigger] t[a].0 == q;
            if a < s.len() {
                assert(s[a].0 == q);
            }
        }
        if has_name(s, q) {
            let a = choose|a: int| 0 <= a < s.len() && #[trigger] s[a].0 == q;
            assert(t[a].0 == q);
        }
        if q == k {
            assert(t[s.len() as int].0 == q);
        }
    }
    assert forall|q: Seq<char>| #[trigger] named_map(t).dom().contains(q) implies named_map(t)[q]
        == m[q] by {
        let a = choose|a: int| 0 <= a < t.len() && #[trigger] t[a].0 == q;
        lemma_value_at(t, a);
        if a < s.len() {
            assert(t[a] == s[a]);
            lemma_value_at(s, a);
        }
    }
    assert(named_map(t) =~= m);
}

proof fn lemma_remove_pair(s: Seq<(Seq<char>, Seq<char>)>, i: int)
    requires
        names_unique(s),
        0 <= i < s.len(),
    ensures
        names_unique(s.remove(i)),
        named_map(s.remove(i)) == named_map(s).remove(s[i].0),
{
    let t = s.remove(i);
    assert forall|a: int, b: int| 0 <= a < t.len() && 0 <= b < t.len() && a != b implies #[trigger] t[a].0
        != #[trigger] t[b].0 by {
        let a2 = if a < i { a } else { a + 1 };
        let b2 = if b < i { b } else { b + 1 };
        assert(t[a] == s[a2] && t[b] == s[b2]);
    }
    let m = named_map(s).remove(s[i].0);
    assert forall|q: Seq<char>| named_map(t).dom().contains(q) <==> m.dom().contains(q) by {
        if has_name(t, q) {
            let a = choose|a: int| 0 <= a < t.len() && #[trigger] t[a].0 == q;
            let a2 = if a < i { a } else { a + 1 };
            assert(t[a] == s[a2]);
            assert(has_name(s, q));
        }
        if m.dom().contains(q) {
            let a2 = choose|a: int| 0 <= a < s.len() && #[trigger] s[a].0 == q;
            let a = if a2 < i { a2 } else { a2 - 1 };
            assert(t[a] == s[a2]);
            assert(has_name(t, q));
        }
    }
    assert forall|q: Seq<char>| #[trigger] named_map(t).dom().contains(q) implies named_map(t)[q]
        == m[q] by {
        let a = choose|a: int| 0 <= a < t.len() && #[trigger] t[a].0 == q;
        let a2 = if a < i { a } else { a + 1 };
        assert(t[a] == s[a2]);
        lemma_value_at(t, a);
        lemma_value_at(s, a2);
    }
    assert(named_map(t) =~= m);
}

fn copy_strings(v: &Vec<String>) -> (r: Vec<String>)
    ensures
        r@ == v@,
{
    let mut r: Vec<String> = Vec::new();
    let mut i: usize = 0;
    while i < v.len()
        invariant
            i <= v@.len(),
            r@ == v@.subrange(0, i as int),
        decreases v@.len() - i,
    {
        r.push(v[i].clone());
        i = i + 1;
        assert(r@ =~= v@.subrange(0, i as int));
    }
    assert(v@.subrange(0, v@.len() as int) =~= v@);
    r
}

impl Exec {
    /// Each option name occurs once.
    pub open spec fn wf(&self) -> bool {
        names_unique(pairs_view(self.named@))
    }

    /// The named options as a map.
    pub open spec fn named_view(&self) -> Map<Seq<char>, Seq<char>> {
        named_map(pairs_view(self.named@))
    }

    /// A command `cmd` with the positional arguments `args`.
    pub fn call(cmd: &str, args: Vec<String>) -> (r: Exec)
        ensures
            r.wf(),
            r.cmd@ == cmd@,
            r.args@ == args@,
            r.named_view() == Map::<Seq<char>, Seq<char>>::empty(),
    {
        let r = Exec { cmd: cmd.to_owned(), args, named: Vec::new() };
        assert(r.named_view() =~= Map::<Seq<char>, Seq<char>>::empty());
        r
    }

    /// A command `cmd` with the named options `named`; where a name occurs
    /// more than once, its last value stands.
    pub fn call_named(cmd: &str, named: Vec<(String, String)>) -> (r: Exec)
        ensures
            r.wf(),
            r.cmd@ == cmd@,
            r.args@.len() == 0,
            r.named_view() == fold_pairs(pairs_view(named@)),
    {
        let mut r = Exec::call(cmd, Vec::new());
        let mut i: usize = 0;
        let ghost nv = pairs_view(named@);
        assert(nv.subrange(0, 0).len() == 0);
        assert(r.named_view() =~= fold_pairs(nv.subrange(0, 0)));
        while i < named.len()
            invariant
                i <= named@.len(),
                nv == pairs_view(named@),
                r.wf(),
                r.cmd@ == cmd@,
                r.args@.len() == 0,
                r.named_view() == fold_pairs(nv.subrange(0, i as int)),
            decreases named@.len() - i,
        {
            r = r.with(named[i].0.as_str(), named[i].1.as_str());
            proof {
                assert(nv.subrange(0, i as int + 1).drop_last() =~= nv.subrange(0, i as int));
            }
            i = i + 1;
        }
        assert(nv.subrange(0, named@.len() as int) =~= nv);
        r
    }

    /// The position of the option `name`.
    fn find_name(&self, name: &String) -> (r: Option<usize>)
        ensures
            r.is_none() <==> !self.named_view().dom().contains(name@),
            r.is_some() ==> r.unwrap() < self.named@.len() && self.named@[r.unwrap() as int].0@
                == name@,
    {
        let mut i: usize = 0;
        while i < self.named.len()
            invariant
                i <= self.named@.len(),
                forall|j: int| 0 <= j < i ==> self.named@[j].0@ != name@,
            decreases self.named@.len() - i,
        {
            if self.named[i].0 == *name {
                assert(pairs_view(self.named@)[i as int].0 == name@);
                return Some(i);
            }
            i = i + 1;
        }
        proof {
            if has_name(pairs_view(self.named@), name@) {
                let j = choose|j: int| 0 <= j < self.named@.len() && #[trigger] pairs_view(self.named@)[j].0 == name@;
                assert(self.named@[j].0@ == name@);
            }
        }
        None
    }

    /// Whether the option `name` is set.
    pub fn contains_name(&self, name: &str) -> (r: bool)
        ensures
            r == self.named_view().dom().contains(name@),
    {
        let n = name.to_owned();
        self.find_name(&n).is_some()
    }

    /// The command with the option `name` set to `value`.
    pub fn with(self, name: &str, value: &str) -> (r: Exec)
        requires
            self.wf(),
        ensures
            r.wf(),
            r.cmd == self.cmd,
            r.args == self.args,
            r.named_view() == self.named_view().insert(name@, value@),
    {
        let mut s = self;
        let k = name.to_owned();
        let v = value.to_owned();
        match s.find_name(&k) {
            Some(i) => {
                proof {
                    lemma_set_value(pairs_view(s.named@), i as int, v@);
                    assert(pairs_view(s.named@.update(i as int, (k, v))) =~= pairs_view(s.named@).update(
                        i as int,
                        (pairs_view(s.named@)[i as int].0, v@),
                    ));
                }
                s.named.set(i, (k, v));
            },
            None => {
                proof {
                    lemma_push_pair(pairs_view(s.named@), k@, v@);
                    assert(pairs_view(s.named@.push((k, v))) =~= pairs_view(s.named@).push((k@, v@)));
                }
                s.named.push((k, v));
            },
        }
        s
    }

    /// The command with the flag `name` set (to an empty value) where
    /// `state` holds, else unchanged.
    pub fn with_bool(self, name: &str, state: bool) -> (r: Exec)
        requires
            self.wf(),
        ensures
            r.wf(),
            r.cmd == self.cmd,
            r.args == self.args,
            r.named_view() == (if state {
                self.named_view().insert(name@, Seq::<char>::empty())
            } else {
                self.named_view()
            }),
    {
        if state {
            let empty = "";
            proof {
                reveal_strlit("");
                assert(empty@ =~= Seq::<char>::empty());
            }
            self.with(name, empty)
        } else {
            self
        }
    }

    /// Takes the first positional argument, leaving an empty string in its
    /// place.
    pub fn take_first(&mut self) -> (r: Option<String>)
        ensures
            final(self).cmd == old(self).cmd,
            final(self).named == old(self).named,
            old(self).args@.len() == 0 ==> r.is_none() && final(self).args@ == old(self).args@,
            old(self).args@.len() > 0 ==> r.is_some() && r.unwrap()@ == old(self).args@[0]@
                && strings_view(final(self).args@) == strings_view(old(self).args@).update(
                0,
                Seq::<char>::empty(),
            ),
    {
        if self.args.len() == 0 {
            None
        } else {
            let first = self.args[0].clone();
            let ghost before = self.args@;
            self.args.set(0, String::new());
            assert(strings_view(self.args@) =~= strings_view(before).update(0, Seq::<char>::empty()));
            Some(first)
        }
    }

    /// Removes the option `name` and returns its value.
    pub fn take_name(&mut self, name: &str) -> (r: Option<String>)
        requires
            old(self).wf(),
        ensures
            final(self).wf(),
            final(self).cmd == old(self).cmd,
            final(self).args == old(self).args,
            final(self).named_view() == old(self).named_view().remove(name@),
            old(self).named_view().dom().contains(name@) ==> r.is_some() && r.unwrap()@ == old(
                self,
            ).named_view()[name@],
            !old(self).named_view().dom().contains(name@) ==> r.is_none(),
    {
        let k = name.to_owned();
        match self.find_name(&k) {
            Some(i) => {
                proof {
                    lemma_remove_pair(pairs_view(self.named@), i as int);
                    lemma_value_at(pairs_view(self.named@), i as int);
                    assert(pairs_view(self.named@.remove(i as int)) =~= pairs_view(self.named@).remove(
                        i as int,
                    ));
                }
                let (_, v) = self.named.remove(i);
                Some(v)
            },
            None => {
                assert(self.named_view().remove(name@) =~= self.named_view());
                None
            },
        }
    }

    /// A copy of the command.
    pub fn clone_without_data(&self) -> (r: Exec)
        ensures
            r.cmd@ == self.cmd@,
            r.args@ == self.args@,
            pairs_view(r.named@) == pairs_view(self.named@),
    {
        let mut named: Vec<(String, String)> = Vec::new();
        let mut i: usize = 0;
        while i < self.named.len()
            invariant
                i <= self.named@.len(),
                pairs_view(named@) == pairs_view(self.named@).subrange(0, i as int),
            decreases self.named@.len() - i,
        {
            let kv = (self.named[i].0.clone(), self.named[i].1.clone());
            let ghost before = named@;
            named.push(kv);
            assert(pairs_view(named@) =~= pairs_view(before).push((kv.0@, kv.1@)));
            i = i + 1;
            assert(pairs_view(named@) =~= pairs_view(self.named@).subrange(0, i as int));
        }
        assert(pairs_view(self.named@).subrange(0, self.named@.len() as int) =~= pairs_view(
            self.named@,
        ));
        Exec { cmd: self.cmd.clone(), args: copy_strings(&self.args), named }
    }
}

} // verus!
