//! The declarations of a program: its locks, functions and externs.

use vstd::prelude::*;

use crate::ast::{Ast, Func, FuncV, Item, ItemV};
use crate::inherit::sets;
use crate::namemap::NameMap;
use crate::text::{clone_names, names, str_eq, Name};

verus! {

/// What the items of a program declare. Of two declarations of one name the
/// later counts; the earlier shows as an error.
pub struct TablesV {
    /// The class of each lock.
    pub lock_class: Map<Name, Name>,
    /// The number of each lock in the order of declaration.
    pub lock_index: Map<Name, usize>,
    pub funcs: Map<Name, FuncV>,
    /// The classes that each extern acquires, in order.
    pub externs: Map<Name, Seq<Name>>,
    /// The externs in the order of declaration.
    pub extern_names: Seq<Name>,
    /// How many locks are declared for each class.
    pub class_instances: Map<Name, usize>,
    pub errors: Seq<Name>,
    /// The locks in the order of declaration.
    pub lock_names: Seq<Name>,
}

/// No declarations.
pub open spec fn no_tables() -> TablesV {
    TablesV {
        lock_class: Map::empty(),
        lock_index: Map::empty(),
        funcs: Map::empty(),
        externs: Map::empty(),
        extern_names: Seq::empty(),
        class_instances: Map::empty(),
        errors: Seq::empty(),
        lock_names: Seq::empty(),
    }
}

/// `errors` with `e` added if `bad`.
pub open spec fn error_if(errors: Seq<Name>, bad: bool, e: Name) -> Seq<Name> {
    if bad {
        errors.push(e)
    } else {
        errors
    }
}

/// `q` with `x` at its end, unless it was there before.
pub open spec fn noted(q: Seq<Name>, seen: bool, x: Name) -> Seq<Name> {
    if seen {
        q
    } else {
        q.push(x)
    }
}

/// The errors for parameters that repeat an earlier one.
pub open spec fn repeated_params(fname: Name, params: Seq<Name>) -> Seq<Name>
    decreases params.len(),
{
    if params.len() == 0 {
        Seq::empty()
    } else {
        error_if(
            repeated_params(fname, params.drop_last()),
            params.drop_last().contains(params.last()),
            "function '"@ + fname + "' declares parameter '"@ + params.last()
                + "' more than once"@,
        )
    }
}

/// The tables after one more item.
pub open spec fn declare(t: TablesV, item: ItemV) -> TablesV {
    match item {
        ItemV::Lock { name, class } => {
            let seen = t.lock_class.contains_key(name);
            TablesV {
                lock_class: t.lock_class.insert(name, class),
                lock_index: if seen {
                    t.lock_index
                } else {
                    t.lock_index.insert(name, t.lock_names.len() as usize)
                },
                lock_names: noted(t.lock_names, seen, name),
                class_instances: t.class_instances.insert(
                    class,
                    if t.class_instances.contains_key(class) {
                        (t.class_instances[class] + 1) as usize
                    } else {
                        1
                    },
                ),
                errors: error_if(
                    t.errors,
                    seen,
                    "lock '"@ + name + "' declared more than once"@,
                ),
                ..t
            }
        },
        ItemV::Func(f) => TablesV {
            funcs: t.funcs.insert(f.name, f),
            errors: error_if(
                t.errors,
                t.funcs.contains_key(f.name),
                "function '"@ + f.name + "' declared more than once"@,
            ) + repeated_params(f.name, f.params),
            ..t
        },
        ItemV::Extern { name, acquires } => TablesV {
            externs: t.externs.insert(name, acquires),
            extern_names: noted(t.extern_names, t.externs.contains_key(name), name),
            errors: error_if(
                t.errors,
                t.externs.contains_key(name),
                "extern '"@ + name + "' declared more than once"@,
            ),
            ..t
        },
    }
}

/// The tables of a list of items.
pub open spec fn declared(items: Seq<ItemV>) -> TablesV
    decreases items.len(),
{
    if items.len() == 0 {
        no_tables()
    } else {
        declare(declared(items.drop_last()), items.last())
    }
}

/// Some lock has the class `c`.
pub open spec fn is_class(t: TablesV, c: Name) -> bool {
    exists|l: Name| #[trigger] t.lock_class.contains_key(l) && t.lock_class[l] == c
}

/// The errors for the classes that an extern acquires and no lock has.
pub open spec fn unknown_classes(t: TablesV, name: Name, acquires: Seq<Name>) -> Seq<Name>
    decreases acquires.len(),
{
    if acquires.len() == 0 {
        Seq::empty()
    } else {
        error_if(
            unknown_classes(t, name, acquires.drop_last()),
            !is_class(t, acquires.last()),
            "extern '"@ + name + "' acquires unknown class '"@ + acquires.last() + "'"@,
        )
    }
}

/// The errors of the externs `q`.
pub open spec fn extern_errors(t: TablesV, q: Seq<Name>) -> Seq<Name>
    decreases q.len(),
{
    if q.len() == 0 {
        Seq::empty()
    } else {
        error_if(
            extern_errors(t, q.drop_last()),
            t.funcs.contains_key(q.last()),
            "'"@ + q.last() + "' is declared as both a function and an extern"@,
        ) + unknown_classes(t, q.last(), t.externs[q.last()])
    }
}

/// The tables of a program, with all errors of its declarations.
pub open spec fn tables_of(items: Seq<ItemV>) -> TablesV {
    let t = declared(items);
    TablesV { errors: t.errors + extern_errors(t, t.extern_names), ..t }
}

/// What the items of a program declare.
pub struct Tables<'a> {
    pub items: &'a Vec<Item>,
    pub lock_class: NameMap<String>,
    pub lock_index: NameMap<usize>,
    /// The position of each function among the items.
    pub funcs: NameMap<usize>,
    pub externs: NameMap<Vec<String>>,
    pub class_instances: NameMap<usize>,
    pub errors: Vec<String>,
}

/// The texts that a map holds.
pub open spec fn texts(m: Map<Name, String>) -> Map<Name, Name> {
    m.map_values(|s: String| s@)
}

/// The functions at the given positions.
pub open spec fn funcs_at(items: Seq<Item>, m: Map<Name, usize>) -> Map<Name, FuncV> {
    m.map_values(|i: usize| items[i as int]->Func_0@)
}

impl<'a> Tables<'a> {
    pub open spec fn wf(&self) -> bool {
        &&& self.lock_class.wf()
        &&& self.lock_index.wf()
        &&& self.funcs.wf()
        &&& self.externs.wf()
        &&& self.class_instances.wf()
        &&& self.lock_class.key_seq() == self.lock_index.key_seq()
        &&& forall|k: Name| #[trigger]
            self.funcs@.contains_key(k) ==> self.funcs@[k] < self.items@.len()
                && self.items@[self.funcs@[k] as int] is Func
                && self.items@[self.funcs@[k] as int]->Func_0@.name == k
    }

    pub open spec fn value(&self) -> TablesV {
        TablesV {
            lock_class: texts(self.lock_class@),
            lock_index: self.lock_index@,
            funcs: funcs_at(self.items@, self.funcs@),
            externs: sets(self.externs@),
            extern_names: self.externs.key_seq(),
            class_instances: self.class_instances@,
            errors: names(self.errors@),
            lock_names: self.lock_class.key_seq(),
        }
    }

    fn new(items: &'a Vec<Item>) -> (r: Tables<'a>)
        ensures
            r.wf(),
            r.items == items,
            r.value() == no_tables(),
    {
        let r = Tables {
            items,
            lock_class: NameMap::new(),
            lock_index: NameMap::new(),
            funcs: NameMap::new(),
            externs: NameMap::new(),
            class_instances: NameMap::new(),
            errors: Vec::new(),
        };
        assert(texts(r.lock_class@) =~= Map::empty());
        assert(funcs_at(r.items@, r.funcs@) =~= Map::empty());
        assert(sets(r.externs@) =~= Map::empty());
        assert(names(r.errors@) =~= Seq::empty());
        r
    }

    fn push_error(&mut self, e: String)
        requires
            old(self).wf(),
        ensures
            final(self).wf(),
            final(self).items == old(self).items,
            final(self).class_instances@ == old(self).class_instances@,
            final(self).externs == old(self).externs,
            final(self).value() == (TablesV {
                errors: old(self).value().errors.push(e@),
                ..old(self).value()
            }),
    {
        let ghost before = names(self.errors@);
        self.errors.push(e);
        assert(names(self.errors@) =~= before.push(e@));
    }

    fn add_lock(&mut self, name: &String, class: &String, Ghost(n): Ghost<nat>)
        requires
            old(self).wf(),
            n < usize::MAX,
            forall|c: Name| #[trigger]
                old(self).class_instances@.contains_key(c) ==> old(self).class_instances@[c] <= n,
        ensures
            final(self).wf(),
            final(self).items == old(self).items,
            final(self).value() == declare(
                old(self).value(),
                ItemV::Lock { name: name@, class: class@ },
            ),
            forall|c: Name| #[trigger]
                final(self).class_instances@.contains_key(c) ==> final(self).class_instances@[c]
                    <= n + 1,
    {
        let ghost t = self.value();
        let next: usize = self.lock_index.len();
        let seen = self.lock_class.contains_key(name.as_str());
        assert(self.lock_class@.contains_key(name@) == self.lock_index@.contains_key(name@));
        if !seen {
            let _ = self.lock_index.insert(name.clone(), next);
        }
        let _ = self.lock_class.insert(name.clone(), class.clone());
        let count: usize = match self.class_instances.get(class.as_str()) {
            Some(k) => *k + 1,
            None => 1,
        };
        let _ = self.class_instances.insert(class.clone(), count);
        assert(texts(self.lock_class@) =~= t.lock_class.insert(name@, class@));
        if seen {
            let mut e = "lock '".to_string();
            e.append(name.as_str());
            e.append("' declared more than once");
            self.push_error(e);
        }
    }

    fn add_func(&mut self, f: &Func, i: usize)
        requires
            old(self).wf(),
            i < old(self).items@.len(),
            old(self).items@[i as int] == Item::Func(*f),
        ensures
            final(self).wf(),
            final(self).items == old(self).items,
            final(self).class_instances@ == old(self).class_instances@,
            final(self).value() == declare(old(self).value(), ItemV::Func(f@)),
    {
        let ghost t = self.value();
        let seen = self.funcs.insert(f.name.clone(), i);
        assert(funcs_at(self.items@, self.funcs@) =~= t.funcs.insert(f@.name, f@));
        if seen {
            let mut e = "function '".to_string();
            e.append(f.name.as_str());
            e.append("' declared more than once");
            self.push_error(e);
        }
        let ghost start = self.value();
        let ghost ps = names(f.params@);
        let mut k: usize = 0;
        assert(ps.take(0) =~= Seq::empty());
        assert(start.errors + repeated_params(f@.name, ps.take(0)) =~= start.errors);
        while k < f.params.len()
            invariant
                self.wf(),
                ps == names(f.params@),
                k <= f.params@.len(),
                self.items == old(self).items,
                self.class_instances@ == old(self).class_instances@,
                self.value() == (TablesV {
                    errors: start.errors + repeated_params(f@.name, ps.take(k as int)),
                    ..start
                }),
            decreases f.params@.len() - k,
        {
            let p = &f.params[k];
            assert(ps.take(k + 1).drop_last() =~= ps.take(k as int));
            assert(ps.take(k + 1).last() == p@);
            if has_name_below(&f.params, k, p.as_str()) {
                let mut e = "function '".to_string();
                e.append(f.name.as_str());
                e.append("' declares parameter '");
                e.append(p.as_str());
                e.append("' more than once");
                self.push_error(e);
                assert(self.value().errors =~= start.errors + repeated_params(
                    f@.name,
                    ps.take(k + 1),
                ));
            }
            k = k + 1;
        }
        assert(ps.take(k as int) =~= ps);
    }

    fn add_extern(&mut self, name: &String, acquires: &Vec<String>)
        requires
            old(self).wf(),
        ensures
            final(self).wf(),
            final(self).items == old(self).items,
            final(self).class_instances@ == old(self).class_instances@,
            final(self).value() == declare(
                old(self).value(),
                ItemV::Extern { name: name@, acquires: names(acquires@) },
            ),
    {
        let ghost t = self.value();
        let seen = self.externs.insert(name.clone(), clone_names(acquires));
        assert(sets(self.externs@) =~= t.externs.insert(name@, names(acquires@)));
        if seen {
            let mut e = "extern '".to_string();
            e.append(name.as_str());
            e.append("' declared more than once");
            self.push_error(e);
        }
    }

    /// Whether some lock has the class `c`.
    pub fn has_class(&self, c: &str) -> (r: bool)
        requires
            self.wf(),
        ensures
            r == is_class(self.value(), c@),
    {
        let mut i: usize = 0;
        while i < self.lock_class.vals.len()
            invariant
                self.wf(),
                i <= self.lock_class.vals@.len(),
                forall|j: int| 0 <= j < i ==> (#[trigger] self.lock_class.vals@[j])@ != c@,
            decreases self.lock_class.vals@.len() - i,
        {
            if str_eq(self.lock_class.vals[i].as_str(), c) {
                proof {
                    self.lock_class.lemma_at(i as int);
                    let l = self.lock_class.key_seq()[i as int];
                    assert(self.value().lock_class.contains_key(l));
                    assert(self.value().lock_class[l] == c@);
                }
                return true;
            }
            i = i + 1;
        }
        proof {
            if is_class(self.value(), c@) {
                let t = self.value();
                let l = choose|l: Name| #[trigger]
                    t.lock_class.contains_key(l) && t.lock_class[l] == c@;
                let q = self.lock_class.key_seq();
                assert(q.contains(l));
                let j = choose|j: int| 0 <= j < q.len() && q[j] == l;
                self.lock_class.lemma_at(j);
                assert(self.lock_class.vals@[j]@ == c@);
            }
        }
        false
    }

    /// Checks the extern at position `i` among the externs.
    fn check_extern(&mut self, i: usize)
        requires
            old(self).wf(),
            i < old(self).externs.keys@.len(),
        ensures
            final(self).wf(),
            final(self).items == old(self).items,
            final(self).value() == (TablesV {
                errors: error_if(
                    old(self).value().errors,
                    old(self).value().funcs.contains_key(old(self).value().extern_names[i as int]),
                    "'"@ + old(self).value().extern_names[i as int]
                        + "' is declared as both a function and an extern"@,
                ) + unknown_classes(
                    old(self).value(),
                    old(self).value().extern_names[i as int],
                    old(self).value().externs[old(self).value().extern_names[i as int]],
                ),
                ..old(self).value()
            }),
            final(self).externs == old(self).externs,
    {
        let ghost t = self.value();
        let name = self.externs.keys[i].clone();
        let acquires = clone_names(&self.externs.vals[i]);
        let ghost acq = names(acquires@);
        proof {
            self.externs.lemma_at(i as int);
            assert(t.extern_names[i as int] == name@);
            assert(t.externs[name@] == acq);
        }
        if self.funcs.contains_key(name.as_str()) {
            let mut e = "'".to_string();
            e.append(name.as_str());
            e.append("' is declared as both a function and an extern");
            self.push_error(e);
        }
        let ghost start = self.value();
        let mut k: usize = 0;
        assert(acq.take(0) =~= Seq::empty());
        assert(start.errors + unknown_classes(t, name@, acq.take(0)) =~= start.errors);
        while k < acquires.len()
            invariant
                self.wf(),
                acq == names(acquires@),
                k <= acquires@.len(),
                self.items == old(self).items,
                self.externs == old(self).externs,
                t.lock_class == start.lock_class,
                self.value() == (TablesV {
                    errors: start.errors + unknown_classes(t, name@, acq.take(k as int)),
                    ..start
                }),
            decreases acquires@.len() - k,
        {
            let c = acquires[k].as_str();
            assert(acq.take(k + 1).drop_last() =~= acq.take(k as int));
            assert(acq.take(k + 1).last() == c@);
            assert(is_class(self.value(), c@) == is_class(t, c@)) by {
                assert(self.value().lock_class == t.lock_class);
            }
            if !self.has_class(c) {
                let mut e = "extern '".to_string();
                e.append(name.as_str());
                e.append("' acquires unknown class '");
                e.append(c);
                e.append("'");
                self.push_error(e);
                assert(self.value().errors =~= start.errors + unknown_classes(
                    t,
                    name@,
                    acq.take(k + 1),
                ));
            }
            k = k + 1;
        }
        assert(acq.take(k as int) =~= acq);
    }

    /// The function named `name`.
    pub fn func(&self, name: &str) -> (r: Option<&'a Func>)
        requires
            self.wf(),
        ensures
            match r {
                Some(f) => self.value().funcs.contains_key(name@) && f@ == self.value().funcs[name@],
                None => !self.value().funcs.contains_key(name@),
            },
    {
        match self.funcs.get(name) {
            None => None,
            Some(i) => match &self.items[*i] {
                Item::Func(f) => Some(f),
                _ => None,
            },
        }
    }

    /// The tables of a program.
    pub fn collect(ast: &'a Ast) -> (r: Tables<'a>)
        ensures
            r.wf(),
            r.items == &ast.items,
            r.value() == tables_of(ast@),
    {
        let ghost all = ast@;
        let mut t = Tables::new(&ast.items);
        let mut i: usize = 0;
        assert(all.take(0) =~= Seq::empty());
        while i < ast.items.len()
            invariant
                all == ast@,
                i <= ast.items@.len(),
                t.wf(),
                t.items == &ast.items,
                t.value() == declared(all.take(i as int)),
                forall|c: Name| #[trigger]
                    t.class_instances@.contains_key(c) ==> t.class_instances@[c] <= i,
            decreases ast.items@.len() - i,
        {
            assert(all.take(i + 1).drop_last() =~= all.take(i as int));
            assert(all.take(i + 1).last() == ast.items@[i as int]@);
            match &ast.items[i] {
                Item::Lock { name, class } => t.add_lock(name, class, Ghost(i as nat)),
                Item::Func(f) => t.add_func(f, i),
                Item::Extern { name, acquires } => t.add_extern(name, acquires),
            }
            i = i + 1;
        }
        assert(all.take(i as int) =~= all);
        let ghost d = t.value();
        let ghost q = d.extern_names;
        let mut k: usize = 0;
        assert(q.take(0) =~= Seq::empty());
        assert(d.errors + extern_errors(d, q.take(0)) =~= d.errors);
        while k < t.externs.keys.len()
            invariant
                t.wf(),
                t.items == &ast.items,
                q == d.extern_names,
                q == t.externs.key_seq(),
                k <= q.len(),
                t.value() == (TablesV {
                    errors: d.errors + extern_errors(d, q.take(k as int)),
                    ..d
                }),
            decreases q.len() - k,
        {
            let ghost before = t.value();
            assert(q.take(k + 1).drop_last() =~= q.take(k as int));
            assert(q.take(k + 1).last() == q[k as int]);
            t.check_extern(k);
            proof {
                lemma_unknown_classes_same(before, d, q[k as int], d.externs[q[k as int]]);
                assert(t.value().errors =~= d.errors + extern_errors(d, q.take(k + 1)));
            }
            k = k + 1;
        }
        assert(q.take(k as int) =~= q);
        t
    }
}

proof fn lemma_unknown_classes_same(a: TablesV, b: TablesV, name: Name, acquires: Seq<Name>)
    requires
        a.lock_class == b.lock_class,
    ensures
        unknown_classes(a, name, acquires) == unknown_classes(b, name, acquires),
    decreases acquires.len(),
{
    if acquires.len() > 0 {
        lemma_unknown_classes_same(a, b, name, acquires.drop_last());
        assert(is_class(a, acquires.last()) == is_class(b, acquires.last()));
    }
}

/// Whether one of the first `n` strings of `v` equals `s`.
fn has_name_below(v: &Vec<String>, n: usize, s: &str) -> (r: bool)
    requires
        n <= v@.len(),
    ensures
        r == names(v@).take(n as int).contains(s@),
{
    let ghost q = names(v@).take(n as int);
    let mut i: usize = 0;
    while i < n
        invariant
            q == names(v@).take(n as int),
            i <= n <= v@.len(),
            forall|j: int| 0 <= j < i ==> q[j] != s@,
        decreases n - i,
    {
        if str_eq(v[i].as_str(), s) {
            assert(q[i as int] == s@);
            return true;
        }
        i = i + 1;
    }
    false
}

/// A program declares finitely many functions and externs.
pub proof fn lemma_tables_finite(items: Seq<ItemV>)
    ensures
        tables_of(items).funcs.dom().finite(),
        tables_of(items).externs.dom().finite(),
{
    lemma_declared_finite(items);
}

proof fn lemma_declared_finite(items: Seq<ItemV>)
    ensures
        declared(items).funcs.dom().finite(),
        declared(items).externs.dom().finite(),
    decreases items.len(),
{
    if items.len() > 0 {
        lemma_declared_finite(items.drop_last());
        let t = declared(items.drop_last());
        match items.last() {
            ItemV::Func(f) => {
                assert(t.funcs.insert(f.name, f).dom() =~= t.funcs.dom().insert(f.name));
            },
            ItemV::Extern { name, acquires } => {
                assert(t.externs.insert(name, acquires).dom() =~= t.externs.dom().insert(name));
            },
            _ => {},
        }
    }
}

}
