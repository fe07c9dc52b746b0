use whorl::events::parse;
use whorl::lint::classes::{
    accessor_summary, guard_class_of_ty, lock_class_of_receiver, move_chain, render_place,
    resolve_place_root, resolve_to_param, sole_borrow_source, Known, Path,
};
use whorl::lint::liveness::guards;
use whorl::lint::mir::{
    Block, Body, Callee, Elem, Operand, Place, Rvalue, Statement, TermKind, Terminator, Ty, TyKind,
};
use whorl::lint::output::{document, write_events};
use whorl::lint::paths::{
    erase_args, is_critical_section_enter, is_deref_call, is_fn_call_shim, is_lock_acquire,
    is_mem_drop, is_pointer, is_result_unwrap, strip_generics,
};
use whorl::lint::scan::{analyze_crate, ProgramOut};
use whorl::model::Program;
use whorl::namemap::NameMap;
use whorl::ordset::NameSet;
use whorl::solver::{analyze, Outcome};

fn other(text: &str) -> Ty {
    Ty {
        text: text.to_string(),
        kind: TyKind::Other,
    }
}

fn adt(text: &str, args: &[&str], fields: &[&str]) -> Ty {
    Ty {
        text: text.to_string(),
        kind: TyKind::Adt {
            path: text.to_string(),
            args: args.iter().map(|s| s.to_string()).collect(),
            fields: Some(fields.iter().map(|s| s.to_string()).collect()),
        },
    }
}

fn reference(t: Ty) -> Ty {
    Ty {
        text: format!("&{}", t.text),
        kind: TyKind::Ref(Box::new(t)),
    }
}

fn body_ty(path: &str) -> Ty {
    Ty {
        text: format!("fn({path})"),
        kind: TyKind::Body(path.to_string()),
    }
}

fn callable() -> Ty {
    Ty {
        text: "F".to_string(),
        kind: TyKind::Callable,
    }
}

fn mutex(data: &str) -> Ty {
    adt(&format!("std::sync::Mutex<{data}>"), &[data], &[])
}

fn guard(data: &str) -> Ty {
    adt(&format!("std::sync::MutexGuard<'_, {data}>"), &[data], &[])
}

fn account() -> Ty {
    adt("Account", &[], &["bal"])
}

fn sys() -> Ty {
    adt("Sys", &[], &["a", "b"])
}

fn same(t: &Ty) -> Ty {
    let kind = match &t.kind {
        TyKind::Adt { path, args, fields } => TyKind::Adt {
            path: path.clone(),
            args: args.clone(),
            fields: fields.clone(),
        },
        TyKind::Ref(inner) => TyKind::Ref(Box::new(same(inner))),
        TyKind::Callable => TyKind::Callable,
        TyKind::Body(path) => TyKind::Body(path.clone()),
        TyKind::Other => TyKind::Other,
    };
    Ty {
        text: t.text.clone(),
        kind,
    }
}

fn whole(local: usize) -> Place {
    Place {
        local,
        proj: vec![],
    }
}

/// `(*local).index`
fn field(local: usize, index: usize, ty: Ty) -> Place {
    Place {
        local,
        proj: vec![Elem::Deref, Elem::Field { index, ty }],
    }
}

fn function(path: &str) -> Callee {
    Callee {
        path: path.to_string(),
        target: Some(path.to_string()),
        local: true,
        of_trait: false,
    }
}

fn foreign(path: &str) -> Callee {
    Callee {
        path: path.to_string(),
        target: None,
        local: false,
        of_trait: false,
    }
}

/// A body under construction. Blocks follow one another.
struct Draft {
    path: String,
    is_closure: bool,
    arg_count: usize,
    locals: Vec<Ty>,
    pending: Vec<Statement>,
    blocks: Vec<Block>,
}

impl Draft {
    fn new(path: &str, args: Vec<Ty>) -> Draft {
        let arg_count = args.len();
        let mut locals = vec![other("()")];
        locals.extend(args);
        Draft {
            path: path.to_string(),
            is_closure: false,
            arg_count,
            locals,
            pending: vec![],
            blocks: vec![],
        }
    }

    fn local(&mut self, ty: Ty) -> usize {
        self.locals.push(ty);
        self.locals.len() - 1
    }

    fn copy(&self, local: usize) -> Operand {
        Operand::Copy(whole(local), same(&self.locals[local]))
    }

    fn take(&self, local: usize) -> Operand {
        Operand::Move(whole(local), same(&self.locals[local]))
    }

    fn assign(&mut self, dest: usize, r: Rvalue) {
        self.pending.push(Statement::Assign(whole(dest), r));
    }

    fn borrow(&mut self, ty: Ty, src: Place) -> usize {
        let l = self.local(reference(ty));
        self.assign(l, Rvalue::Ref(src));
        l
    }

    fn moved(&mut self, ty: Ty, from: usize) -> usize {
        let l = self.local(ty);
        self.assign(l, Rvalue::Use(self.take(from)));
        l
    }

    fn end(&mut self, kind: TermKind) {
        let n = self.blocks.len() + 1;
        let statements = std::mem::take(&mut self.pending);
        self.blocks.push(Block {
            statements,
            terminator: Terminator {
                kind,
                site: format!("src/lib.rs:{n}"),
                next: vec![n],
            },
        });
    }

    fn call(&mut self, callee: Callee, args: Vec<Operand>, dest: usize) {
        self.end(TermKind::Call {
            callee: Some(callee),
            args,
            dest: whole(dest),
        });
    }

    fn call_value(&mut self, args: Vec<Operand>, dest: usize) {
        self.end(TermKind::Call {
            callee: None,
            args,
            dest: whole(dest),
        });
    }

    /// `let g = (*receiver).lock().unwrap();`
    fn lock_at(&mut self, receiver: usize, data: &str) -> usize {
        let result = self.local(adt("Result", &[], &[]));
        let g = self.local(guard(data));
        self.call(
            foreign("std::sync::Mutex::<T>::lock"),
            vec![self.copy(receiver)],
            result,
        );
        self.call(
            foreign("std::result::Result::<T, E>::unwrap"),
            vec![self.take(result)],
            g,
        );
        g
    }

    fn lock(&mut self, src: Place, data: &str) -> usize {
        let r = self.borrow(mutex(data), src);
        self.lock_at(r, data)
    }

    fn release(&mut self, g: usize) {
        self.end(TermKind::Drop(whole(g)));
    }

    fn build(mut self) -> Body {
        self.end(TermKind::Other);
        self.blocks.last_mut().unwrap().terminator.next = vec![];
        let body = Body {
            path: self.path,
            is_closure: self.is_closure,
            arg_count: self.arg_count,
            locals: self.locals,
            blocks: self.blocks,
        };
        assert!(body.is_valid());
        body
    }
}

fn run(bodies: Vec<Body>) -> (ProgramOut, Program) {
    let out = analyze_crate(&bodies);
    let program = match parse(&write_events(&out)) {
        Ok(p) => p,
        Err(e) => panic!("{e}"),
    };
    (out, program)
}

fn deadlocks(p: &Program) -> bool {
    matches!(analyze(p).outcome, Outcome::Deadlock { .. })
}

fn safe(p: &Program) -> bool {
    p.incomplete.is_none() && !deadlocks(p)
}

const BAL: &str = "&Account.*.bal:std::sync::Mutex";

#[test]
fn the_transfer_deadlocks() {
    let mut d = Draft::new("transfer", vec![reference(account()), reference(account())]);
    let g = d.lock(field(1, 0, mutex("i64")), "i64");
    let h = d.lock(field(2, 0, mutex("i64")), "i64");
    d.release(h);
    d.release(g);
    let (out, p) = run(vec![d.build()]);
    assert_eq!(out.events.len(), 2);
    assert_eq!(out.events[0].acquires, BAL);
    assert_eq!(out.events[0].site, "src/lib.rs:1");
    assert!(out.events[0].held.is_empty());
    assert_eq!(out.events[1].held, vec![BAL.to_string()]);
    assert_eq!(out.class_instances.get(BAL).map(|s| s.len()), Some(2));
    assert_eq!(p.name, "mir");
    assert_eq!(p.class_instances.get(BAL), Some(&2));
    assert!(p.incomplete.is_none());
    let report = analyze(&p);
    assert!(matches!(report.outcome, Outcome::Deadlock { .. }));
    assert!(!report.self_loop_single_instance);
}

#[test]
fn guards_released_in_turn_are_safe() {
    let mut d = Draft::new("sequential", vec![reference(account()), reference(account())]);
    let g = d.lock(field(1, 0, mutex("i64")), "i64");
    d.release(g);
    let h = d.lock(field(2, 0, mutex("i64")), "i64");
    d.release(h);
    let (out, p) = run(vec![d.build()]);
    assert!(out.events.iter().all(|e| e.held.is_empty()));
    assert!(safe(&p));
}

#[test]
fn a_guard_handed_to_drop_is_released() {
    let mut d = Draft::new("seq", vec![reference(account()), reference(account())]);
    let g = d.lock(field(1, 0, mutex("i64")), "i64");
    let moved = d.moved(guard("i64"), g);
    let unit = d.local(other("()"));
    d.call(foreign("std::mem::drop"), vec![d.take(moved)], unit);
    let h = d.lock(field(2, 0, mutex("i64")), "i64");
    d.release(h);
    let (out, p) = run(vec![d.build()]);
    assert!(out.events[1].held.is_empty());
    assert!(safe(&p));
}

#[test]
fn a_dead_local_holds_nothing() {
    let mut d = Draft::new("f", vec![reference(account()), reference(account())]);
    let g = d.lock(field(1, 0, mutex("i64")), "i64");
    d.pending.push(Statement::StorageDead(g));
    d.end(TermKind::Other);
    d.lock(field(2, 0, mutex("i64")), "i64");
    let (out, _) = run(vec![d.build()]);
    assert!(out.events[1].held.is_empty());
}

#[test]
fn a_guard_live_on_one_path_is_held() {
    let mut d = Draft::new("branchy", vec![reference(account()), reference(account())]);
    d.end(TermKind::Other);
    let g = d.lock(field(1, 0, mutex("i64")), "i64");
    let h = d.lock(field(2, 0, mutex("i64")), "i64");
    d.release(h);
    d.release(g);
    // The first block branches past the first acquisition.
    d.blocks[0].terminator.next = vec![1, 3];
    let (out, p) = run(vec![d.build()]);
    assert_eq!(out.events[1].held, vec![BAL.to_string()]);
    assert!(deadlocks(&p));
}

fn inverted(second: Draft, a: usize, b: usize) -> Vec<Body> {
    let mut d = Draft::new("field_route", vec![reference(sys())]);
    let g = d.lock(field(1, 0, mutex("i32")), "i32");
    let h = d.lock(field(1, 1, mutex("i32")), "i32");
    d.release(h);
    d.release(g);
    let mut e = second;
    let g = e.lock_at(b, "i32");
    let h = e.lock_at(a, "i32");
    e.release(h);
    e.release(g);
    vec![d.build(), e.build()]
}

fn accessor(path: &str, index: usize) -> Body {
    let mut d = Draft::new(path, vec![reference(sys())]);
    d.locals[0] = reference(mutex("i32"));
    let r = d.borrow(mutex("i32"), field(1, index, mutex("i32")));
    d.assign(0, Rvalue::Use(d.take(r)));
    d.build()
}

#[test]
fn an_accessor_names_the_field_it_returns() {
    let a = accessor_summary(&accessor("Sys::lock_a", 0)).unwrap();
    assert_eq!(a.param, 1);
    assert_eq!(a.part, ".a:std::sync::Mutex");
    assert_eq!(a.id, ".a");
}

#[test]
fn a_lock_behind_an_accessor_is_the_same_lock() {
    let mut e = Draft::new("accessor_route", vec![reference(sys())]);
    let b = e.borrow(mutex("i32"), field(1, 1, mutex("i32")));
    let a = e.local(reference(mutex("i32")));
    e.call(function("Sys::lock_a"), vec![e.copy(1)], a);
    let mut bodies = inverted(e, a, b);
    bodies.push(accessor("Sys::lock_a", 0));
    let (out, p) = run(bodies);
    assert_eq!(out.events[0].acquires, "&Sys.*.a:std::sync::Mutex");
    assert_eq!(out.events[3].acquires, out.events[0].acquires);
    assert_eq!(out.events[2].acquires, out.events[1].acquires);
    assert!(p.incomplete.is_none());
    assert!(deadlocks(&p));
}

#[test]
fn an_accessor_on_a_fresh_borrow_is_the_same_lock() {
    // `lock_a(&w.sys)` against `w.sys.a`.
    let outer = || adt("W", &[], &["sys"]);
    let mut d = Draft::new("f", vec![reference(outer())]);
    let fresh = d.borrow(sys(), field(1, 0, sys()));
    let a = d.local(reference(mutex("i32")));
    d.call(function("Sys::lock_a"), vec![d.take(fresh)], a);
    d.lock_at(a, "i32");
    let mut e = Draft::new("g", vec![reference(outer())]);
    let mut direct = field(1, 0, sys());
    direct.proj.push(Elem::Field {
        index: 0,
        ty: mutex("i32"),
    });
    e.lock(direct, "i32");
    let (out, p) = run(vec![d.build(), e.build(), accessor("Sys::lock_a", 0)]);
    assert_eq!(out.events[0].acquires, "&W.*.sys:Sys.a:std::sync::Mutex");
    assert_eq!(out.events[1].acquires, out.events[0].acquires);
    assert!(p.incomplete.is_none());
}

#[test]
fn an_accessor_with_two_paths_fails_closed() {
    // One path returns a field, the other what a call returns.
    let mut pick = Draft::new("Sys::pick", vec![reference(sys())]);
    pick.locals[0] = reference(mutex("i32"));
    let r = pick.borrow(mutex("i32"), field(1, 0, mutex("i32")));
    pick.assign(0, Rvalue::Use(pick.take(r)));
    pick.end(TermKind::Other);
    pick.call(function("Sys::lock_a"), vec![pick.copy(1)], 0);
    pick.blocks[0].terminator.next = vec![1, 2];
    let pick = pick.build();
    assert!(accessor_summary(&pick).is_none());

    let mut e = Draft::new("t", vec![reference(sys())]);
    let b = e.borrow(mutex("i32"), field(1, 1, mutex("i32")));
    let a = e.local(reference(mutex("i32")));
    e.call(function("Sys::pick"), vec![e.copy(1)], a);
    let mut bodies = inverted(e, a, b);
    bodies.push(pick);
    bodies.push(accessor("Sys::lock_a", 0));
    let (out, p) = run(bodies);
    let reason = out.incomplete.unwrap();
    assert!(reason.starts_with("a lock is reached through `Sys::pick`, whose body is not a simple field"));
    assert_eq!(p.incomplete, Some(reason));
}

#[test]
fn type_arguments_do_not_split_a_class() {
    let pair = |data: &str| adt(&format!("Pair<{data}>"), &[data], &["a", "b"]);
    let mut d = Draft::new("lock_a_then_b", vec![reference(pair("T"))]);
    let g = d.lock(field(1, 0, mutex("T")), "T");
    let h = d.lock(field(1, 1, mutex("T")), "T");
    d.release(h);
    d.release(g);
    let mut e = Draft::new("lock_b_then_a", vec![reference(pair("i32"))]);
    let g = e.lock(field(1, 1, mutex("i32")), "i32");
    let h = e.lock(field(1, 0, mutex("i32")), "i32");
    e.release(h);
    e.release(g);
    let (out, p) = run(vec![d.build(), e.build()]);
    assert_eq!(out.events[0].acquires, "&Pair.*.a:std::sync::Mutex");
    assert!(deadlocks(&p));
}

fn static_ref(d: &mut Draft, name: &str) -> usize {
    let l = d.local(reference(mutex("i32")));
    d.assign(
        l,
        Rvalue::Use(Operand::Const {
            ty: reference(mutex("i32")),
            item: Some(name.to_string()),
        }),
    );
    l
}

fn two_statics(path: &str, first: &str, second: &str) -> Body {
    let mut d = Draft::new(path, vec![]);
    let x = static_ref(&mut d, first);
    let g = d.lock_at(x, "i32");
    let y = static_ref(&mut d, second);
    let h = d.lock_at(y, "i32");
    d.release(h);
    d.release(g);
    d.build()
}

#[test]
fn statics_are_told_apart_by_name() {
    let (out, p) = run(vec![two_statics("f", "A", "B"), two_statics("g", "A", "B")]);
    assert_eq!(out.events[0].acquires, "A");
    assert_eq!(out.events[1].acquires, "B");
    assert_eq!(out.events[1].held, vec!["A".to_string()]);
    assert_eq!(p.class_instances.get("A"), Some(&1));
    assert!(safe(&p));
    let (_, p) = run(vec![two_statics("f", "A", "B"), two_statics("g", "B", "A")]);
    assert!(deadlocks(&p));
}

fn deref_call() -> Callee {
    Callee {
        path: "std::ops::Deref::deref".to_string(),
        target: None,
        local: false,
        of_trait: true,
    }
}

#[test]
fn a_wrapper_that_points_derefs_like_a_reference() {
    let arc = || adt("std::sync::Arc<std::sync::Mutex<i32>>", &["std::sync::Mutex<i32>"], &[]);
    let mut d = Draft::new("f", vec![reference(arc())]);
    let r = d.local(reference(mutex("i32")));
    d.call(deref_call(), vec![d.copy(1)], r);
    d.lock_at(r, "i32");
    // A clone of it that is stored elsewhere.
    let holder = || adt("Holder", &[], &["shared"]);
    let mut e = Draft::new("g", vec![reference(holder())]);
    let fresh = e.borrow(arc(), field(1, 0, arc()));
    let r = e.local(reference(mutex("i32")));
    let args = vec![e.take(fresh)];
    e.call(deref_call(), args, r);
    e.lock_at(r, "i32");
    let (out, _) = run(vec![d.build(), e.build()]);
    assert_eq!(out.events[0].acquires, "&std::sync::Arc.*");
    assert_eq!(out.events[1].acquires, "&std::sync::Arc.*");
    assert!(out.incomplete.is_none());
}

#[test]
fn a_box_is_shown_like_a_built_in_deref() {
    let boxed = || adt("std::boxed::Box<std::sync::Mutex<i32>>", &["std::sync::Mutex<i32>"], &[]);
    let holder = || adt("Holder", &[], &["b"]);
    let mut d = Draft::new("f", vec![reference(holder())]);
    let fresh = d.borrow(boxed(), field(1, 0, boxed()));
    let r = d.local(reference(mutex("i32")));
    let args = vec![d.take(fresh)];
    d.call(deref_call(), args, r);
    d.lock_at(r, "i32");
    let mut direct = field(1, 0, boxed());
    direct.proj.push(Elem::Deref);
    d.lock(direct, "i32");
    let mut e = Draft::new("g", vec![reference(boxed())]);
    let r = e.local(reference(mutex("i32")));
    let args = vec![e.copy(1)];
    e.call(deref_call(), args, r);
    e.lock_at(r, "i32");
    e.lock(
        Place {
            local: 1,
            proj: vec![Elem::Deref, Elem::Deref],
        },
        "i32",
    );
    let (out, _) = run(vec![d.build(), e.build()]);
    assert_eq!(out.events[0].acquires, "&Holder.*.b:std::boxed::Box.*");
    assert_eq!(out.events[1].acquires, out.events[0].acquires);
    assert_eq!(out.events[2].acquires, "&std::boxed::Box.*.*");
    assert_eq!(out.events[3].acquires, out.events[2].acquires);
    assert!(out.incomplete.is_none());
}

#[test]
fn a_type_named_like_a_pointer_is_known_by_its_body() {
    // `impl Deref for Lazy { fn deref(&self) -> &Mutex<i32> { &self.inner } }`
    let lazy = || adt("Lazy", &[], &["inner"]);
    let s = || adt("S", &[], &["a"]);
    let imp = |simple: bool| {
        let mut imp = Draft::new("<Lazy as Deref>::deref", vec![reference(lazy())]);
        imp.locals[0] = reference(mutex("i32"));
        if simple {
            imp.assign(0, Rvalue::Ref(field(1, 0, mutex("i32"))));
        } else {
            let args = vec![imp.copy(1)];
            imp.call(foreign("elsewhere::pick"), args, 0);
        }
        imp.build()
    };
    let caller = || {
        let mut d = Draft::new("t", vec![reference(s())]);
        let fresh = d.borrow(lazy(), field(1, 0, lazy()));
        let r = d.local(reference(mutex("i32")));
        let mut callee = deref_call();
        callee.target = Some("<Lazy as Deref>::deref".to_string());
        let args = vec![d.take(fresh)];
        d.call(callee, args, r);
        d.lock_at(r, "i32");
        let mut direct = field(1, 0, lazy());
        direct.proj.push(Elem::Field {
            index: 0,
            ty: mutex("i32"),
        });
        d.lock(direct, "i32");
        d.build()
    };
    let (out, _) = run(vec![caller(), imp(true)]);
    assert_eq!(out.events[0].acquires, "&S.*.a:Lazy.inner:std::sync::Mutex");
    assert_eq!(out.events[1].acquires, out.events[0].acquires);
    assert!(out.incomplete.is_none());
    let (out, _) = run(vec![caller(), imp(false)]);
    assert!(out.incomplete.unwrap().contains("`std::ops::Deref::deref`"));
}

#[test]
fn a_reference_with_two_definitions_is_not_followed() {
    // let r = if w { &self.a } else { self.b_ref() }; &*r
    let mut pick = Draft::new("Sys::pick", vec![reference(sys())]);
    pick.locals[0] = reference(mutex("i32"));
    pick.end(TermKind::Other);
    let r = pick.borrow(mutex("i32"), field(1, 0, mutex("i32")));
    pick.end(TermKind::Other);
    let args = vec![pick.copy(1)];
    pick.call(function("Sys::b_ref"), args, r);
    pick.assign(
        0,
        Rvalue::Ref(Place {
            local: r,
            proj: vec![Elem::Deref],
        }),
    );
    pick.blocks[0].terminator.next = vec![1, 2];
    pick.blocks[1].terminator.next = vec![3];
    let pick = pick.build();
    assert!(accessor_summary(&pick).is_none());
    assert!(sole_borrow_source(&pick, r).is_none());

    // The same in a body that takes the lock, with two borrows.
    let mut d = Draft::new("f", vec![reference(sys())]);
    let r = d.borrow(mutex("i32"), field(1, 0, mutex("i32")));
    d.assign(r, Rvalue::Ref(field(1, 1, mutex("i32"))));
    d.lock_at(r, "i32");
    let (out, _) = run(vec![d.build()]);
    assert!(out
        .incomplete
        .unwrap()
        .starts_with("a lock is reached through a reference that does not have one known origin"));
}

#[test]
fn temporaries_are_seen_through() {
    let outer = || adt("W", &[], &["sys"]);
    let mut d = Draft::new("f", vec![reference(outer())]);
    // _t = &(*_1).sys; lock(&(*_t).a)
    let t = d.borrow(sys(), field(1, 0, sys()));
    d.lock(field(t, 0, mutex("i32")), "i32");
    // _u = copy _t; lock(&(*_u).a)
    let u = d.moved(reference(sys()), t);
    d.lock(field(u, 0, mutex("i32")), "i32");
    // lock(&(*_1).sys.a)
    let mut direct = field(1, 0, sys());
    direct.proj.push(Elem::Field {
        index: 0,
        ty: mutex("i32"),
    });
    d.lock(direct, "i32");
    let (out, _) = run(vec![d.build()]);
    assert_eq!(out.events[0].acquires, "&W.*.sys:Sys.a:std::sync::Mutex");
    assert_eq!(out.events[1].acquires, out.events[0].acquires);
    assert_eq!(out.events[2].acquires, out.events[0].acquires);
    assert_eq!(p_instances(&out, "&W.*.sys:Sys.a:std::sync::Mutex"), 1);
    assert!(out.incomplete.is_none());
}

fn p_instances(out: &ProgramOut, class: &str) -> usize {
    out.class_instances.get(class).map(|s| s.len()).unwrap_or(0)
}

#[test]
fn a_parameter_is_one_lock_copied_or_borrowed_again() {
    let mut d = Draft::new("f", vec![reference(mutex("i32"))]);
    d.lock_at(1, "i32");
    let copy = d.moved(reference(mutex("i32")), 1);
    d.lock_at(copy, "i32");
    d.lock(
        Place {
            local: 1,
            proj: vec![Elem::Deref],
        },
        "i32",
    );
    let (out, _) = run(vec![d.build()]);
    for e in &out.events {
        assert_eq!(e.acquires, "&std::sync::Mutex.*");
    }
    assert!(out.incomplete.is_none());
}

#[test]
fn a_reference_out_of_a_call_is_reported() {
    // for x in list { x.lock() }
    let mut d = Draft::new("f", vec![]);
    let item = d.local(adt("Option", &[], &[]));
    d.call(foreign("std::iter::Iterator::next"), vec![], item);
    let x = d.local(reference(mutex("i32")));
    let part = Place {
        local: item,
        proj: vec![
            Elem::Other,
            Elem::Field {
                index: 0,
                ty: reference(mutex("i32")),
            },
        ],
    };
    d.assign(x, Rvalue::Use(Operand::Copy(part, reference(mutex("i32")))));
    d.lock_at(x, "i32");
    let (out, _) = run(vec![d.build()]);
    assert!(out.incomplete.unwrap().contains("`std::iter::Iterator::next`"));
}

#[test]
fn a_parameter_that_is_assigned_is_no_root() {
    let mut d = Draft::new("Sys::pick", vec![reference(sys()), reference(sys())]);
    d.locals[0] = reference(mutex("i32"));
    let second = d.copy(2);
    d.assign(1, Rvalue::Use(second));
    d.assign(0, Rvalue::Ref(field(1, 0, mutex("i32"))));
    assert!(accessor_summary(&d.build()).is_none());
}

#[test]
fn a_constant_receiver_is_known_by_its_static() {
    let constant = |item: Option<&str>| Operand::Const {
        ty: reference(mutex("i32")),
        item: item.map(|s| s.to_string()),
    };
    let body = |item: Option<&str>| {
        let mut d = Draft::new("f", vec![]);
        let result = d.local(adt("Result", &[], &[]));
        d.call(foreign("std::sync::Mutex::<T>::lock"), vec![constant(item)], result);
        d.build()
    };
    let (out, _) = run(vec![body(Some("LOCK")), two_statics("g", "LOCK", "B")]);
    assert_eq!(out.events[0].acquires, "LOCK");
    assert_eq!(out.events[1].acquires, "LOCK");
    assert!(out.incomplete.is_none());
    let (out, _) = run(vec![body(None)]);
    assert_eq!(out.events[0].acquires, "<unknown-lock>");
    assert!(out.incomplete.unwrap().starts_with("a lock is taken on a constant"));
}

#[test]
fn a_constant_argument_of_an_accessor_is_known_by_its_static() {
    let mut d = Draft::new("f", vec![]);
    let a = d.local(reference(mutex("i32")));
    let arg = Operand::Const {
        ty: reference(sys()),
        item: Some("SYS".to_string()),
    };
    d.call(function("Sys::lock_a"), vec![arg], a);
    d.lock_at(a, "i32");
    let s = d.local(reference(sys()));
    d.assign(
        s,
        Rvalue::Use(Operand::Const {
            ty: reference(sys()),
            item: Some("SYS".to_string()),
        }),
    );
    d.lock(field(s, 0, mutex("i32")), "i32");
    let (out, _) = run(vec![d.build(), accessor("Sys::lock_a", 0)]);
    assert_eq!(out.events[0].acquires, "SYS.a:std::sync::Mutex");
    assert_eq!(out.events[1].acquires, out.events[0].acquires);
    assert!(out.incomplete.is_none());
}

#[test]
fn an_accessor_on_what_a_call_returned_is_reported() {
    let mut d = Draft::new("f", vec![]);
    let s = d.local(reference(sys()));
    d.call(foreign("elsewhere::sys"), vec![], s);
    let a = d.local(reference(mutex("i32")));
    let args = vec![d.copy(s)];
    d.call(function("Sys::lock_a"), args, a);
    d.lock_at(a, "i32");
    let (out, _) = run(vec![d.build(), accessor("Sys::lock_a", 0)]);
    assert!(out.incomplete.unwrap().contains("`elsewhere::sys`"));
}

#[test]
fn a_static_behind_a_pointer_is_known_by_its_name() {
    let lazy = || adt("once_cell::sync::Lazy<std::sync::Mutex<i32>>", &[], &[]);
    let mut d = Draft::new("f", vec![]);
    let s = d.local(reference(lazy()));
    d.assign(
        s,
        Rvalue::Use(Operand::Const {
            ty: reference(lazy()),
            item: Some("callsite::LOCKED".to_string()),
        }),
    );
    let again = d.borrow(
        lazy(),
        Place {
            local: s,
            proj: vec![Elem::Deref],
        },
    );
    for from in [s, again] {
        let r = d.local(reference(mutex("i32")));
        let args = vec![d.copy(from)];
        d.call(deref_call(), args, r);
        d.lock_at(r, "i32");
    }
    let (out, _) = run(vec![d.build()]);
    assert_eq!(out.events[0].acquires, "callsite::LOCKED.*");
    assert_eq!(out.events[1].acquires, "callsite::LOCKED.*");
    assert!(out.incomplete.is_none());
}

#[test]
fn a_deref_of_another_type_is_resolved_or_fails_closed() {
    let w = || adt("W", &[], &["inner"]);
    let s = || adt("S", &[], &["a"]);
    let call = |target: Option<String>| {
        let mut d = Draft::new("t1", vec![reference(s())]);
        let fresh = d.borrow(w(), field(1, 0, w()));
        let r = d.local(reference(mutex("i32")));
        let deref = Callee {
            path: "std::ops::Deref::deref".to_string(),
            target,
            local: false,
            of_trait: true,
        };
        d.call(deref, vec![d.take(fresh)], r);
        d.lock_at(r, "i32");
        d.build()
    };
    let mut imp = Draft::new("<W as Deref>::deref", vec![reference(w())]);
    imp.locals[0] = reference(mutex("i32"));
    imp.assign(0, Rvalue::Ref(field(1, 0, mutex("i32"))));
    let imp = imp.build();
    let (out, _) = run(vec![call(Some("<W as Deref>::deref".to_string())), imp]);
    assert_eq!(out.events[0].acquires, "&S.*.a:W.inner:std::sync::Mutex");
    assert!(out.incomplete.is_none());
    let (out, _) = run(vec![call(None)]);
    assert!(out.incomplete.unwrap().contains("std::ops::Deref::deref"));
}

fn spin_lock(d: &mut Draft) -> usize {
    let r = d.local(reference(adt("spin::Mutex<u32>", &["u32"], &[])));
    d.assign(
        r,
        Rvalue::Use(Operand::Const {
            ty: reference(adt("spin::Mutex<u32>", &["u32"], &[])),
            item: Some("SPIN".to_string()),
        }),
    );
    let g = d.local(adt("spin::mutex::MutexGuard<'_, u32>", &["u32"], &[]));
    d.call(
        foreign("spin::mutex::Mutex::<T, R>::lock"),
        vec![d.copy(r)],
        g,
    );
    g
}

fn closure_arg(path: &str) -> Operand {
    Operand::Const {
        ty: body_ty(path),
        item: None,
    }
}

#[test]
fn a_critical_section_against_a_spinlock_deadlocks() {
    let mut outer = Draft::new("cs_then_spin", vec![]);
    let unit = outer.local(other("()"));
    outer.call(
        foreign("critical_section::with"),
        vec![closure_arg("cs_then_spin::{closure#0}")],
        unit,
    );
    let mut inner = Draft::new("cs_then_spin::{closure#0}", vec![]);
    inner.is_closure = true;
    let g = spin_lock(&mut inner);
    inner.release(g);
    let mut second = Draft::new("spin_then_cs", vec![]);
    let g = spin_lock(&mut second);
    let unit = second.local(other("()"));
    second.call(
        foreign("cortex_m::interrupt::free"),
        vec![closure_arg("spin_then_cs::{closure#0}")],
        unit,
    );
    second.release(g);
    let mut empty = Draft::new("spin_then_cs::{closure#0}", vec![]);
    empty.is_closure = true;
    let (out, p) = run(vec![outer.build(), inner.build(), second.build(), empty.build()]);
    assert_eq!(out.class_instances.get("<critical-section>").map(|s| s.len()), Some(1));
    assert_eq!(out.calls.len(), 2);
    assert_eq!(out.calls[0].target, "cs_then_spin::{closure#0}");
    assert_eq!(out.calls[0].held, vec!["<critical-section>".to_string()]);
    assert_eq!(
        out.calls[1].held,
        vec!["<critical-section>".to_string(), "SPIN".to_string()]
    );
    let Outcome::Deadlock { cycle } = analyze(&p).outcome else {
        panic!("expected a deadlock")
    };
    assert_eq!(cycle.len(), 2);
}

#[test]
fn nested_critical_sections_are_safe() {
    let mut outer = Draft::new("f", vec![]);
    let unit = outer.local(other("()"));
    outer.call(foreign("critical_section::with"), vec![closure_arg("f::{closure#0}")], unit);
    let mut inner = Draft::new("f::{closure#0}", vec![]);
    inner.is_closure = true;
    let unit = inner.local(other("()"));
    inner.call(
        foreign("critical_section::with"),
        vec![closure_arg("f::{closure#0}::{closure#0}")],
        unit,
    );
    let (_, p) = run(vec![outer.build(), inner.build()]);
    assert!(safe(&p));
}

#[test]
fn a_lock_held_across_a_call_is_seen_in_the_callee() {
    let mut a = Draft::new("locker_a", vec![reference(sys())]);
    let g = a.lock(field(1, 0, mutex("i32")), "i32");
    let unit = a.local(other("()"));
    a.call(function("helper"), vec![a.copy(1)], unit);
    a.release(g);
    let mut h = Draft::new("helper", vec![reference(sys())]);
    let g = h.lock(field(1, 1, mutex("i32")), "i32");
    h.release(g);
    let mut b = Draft::new("locker_b", vec![reference(sys())]);
    let g = b.lock(field(1, 1, mutex("i32")), "i32");
    let k = b.lock(field(1, 0, mutex("i32")), "i32");
    b.release(k);
    b.release(g);
    let (_, p) = run(vec![a.build(), h.build(), b.build()]);
    let e = p.events.iter().find(|e| e.function == "helper").unwrap();
    assert_eq!(e.held, vec!["&Sys.*.a:std::sync::Mutex".to_string()]);
    assert!(deadlocks(&p));
}

fn with_a(callback: Ty) -> Body {
    let mut d = Draft::new("with_a", vec![reference(sys()), callback]);
    let g = d.lock(field(1, 0, mutex("i32")), "i32");
    let unit = d.local(other("()"));
    d.call(
        foreign("std::ops::FnOnce::call_once"),
        vec![d.take(2)],
        unit,
    );
    d.release(g);
    d.build()
}

#[test]
fn a_closure_is_bound_to_the_parameter_it_is_passed_to() {
    let mut p1 = Draft::new("path1", vec![reference(sys())]);
    let unit = p1.local(other("()"));
    p1.call(
        function("with_a"),
        vec![p1.copy(1), closure_arg("path1::{closure#0}")],
        unit,
    );
    let mut c = Draft::new("path1::{closure#0}", vec![reference(sys())]);
    c.is_closure = true;
    let g = c.lock(field(1, 1, mutex("i32")), "i32");
    c.release(g);
    let mut p2 = Draft::new("path2", vec![reference(sys())]);
    let g = p2.lock(field(1, 1, mutex("i32")), "i32");
    let h = p2.lock(field(1, 0, mutex("i32")), "i32");
    p2.release(h);
    p2.release(g);
    let (out, p) = run(vec![with_a(callable()), p1.build(), c.build(), p2.build()]);
    assert_eq!(out.param_calls.len(), 1);
    assert_eq!(out.param_calls[0].param, 2);
    assert_eq!(out.closure_args.len(), 1);
    assert_eq!(out.closure_args[0].callee, "with_a");
    assert_eq!(out.closure_args[0].closure, "path1::{closure#0}");
    assert!(p.incomplete.is_none());
    assert!(deadlocks(&p));
}

#[test]
fn an_unnamed_callable_keeps_a_parameter_unresolved() {
    let mut p1 = Draft::new("forward", vec![reference(sys()), callable()]);
    let unit = p1.local(other("()"));
    p1.call(
        function("with_a"),
        vec![p1.copy(1), p1.take(2)],
        unit,
    );
    let (out, p) = run(vec![with_a(callable()), p1.build()]);
    assert_eq!(out.closure_args[0].closure, "<unknown>");
    assert!(p.incomplete.unwrap().starts_with("with_a calls its parameter #2 while holding"));
}

#[test]
fn a_callable_inside_a_collection_is_known_by_its_type() {
    let mut d = Draft::new("forward", vec![reference(sys()), other("[fn(); 4]")]);
    let unit = d.local(other("()"));
    let element = Place {
        local: 2,
        proj: vec![Elem::Other],
    };
    let args = vec![d.copy(1), Operand::Copy(element, callable())];
    d.call(function("with_a"), args, unit);
    let (out, p) = run(vec![with_a(callable()), d.build()]);
    assert_eq!(out.closure_args[0].closure, "<unknown>");
    assert!(p.incomplete.is_some());
}

#[test]
fn a_call_through_a_value_is_opaque() {
    let mut d = Draft::new("f", vec![reference(sys()), callable()]);
    let g = d.lock(field(1, 0, mutex("i32")), "i32");
    let unit = d.local(other("()"));
    d.call_value(vec![d.copy(2)], unit);
    d.release(g);
    let (out, p) = run(vec![d.build()]);
    assert_eq!(out.opaque_calls.len(), 1);
    assert_eq!(out.opaque_calls[0].site, "src/lib.rs:3");
    assert_eq!(out.opaque_calls[0].held, vec!["&Sys.*.a:std::sync::Mutex".to_string()]);
    assert!(p.incomplete.is_some());
    // With nothing held no edge can be lost.
    let mut d = Draft::new("f", vec![callable()]);
    let unit = d.local(other("()"));
    d.call_value(vec![d.copy(1)], unit);
    let (out, p) = run(vec![d.build()]);
    assert_eq!(out.opaque_calls.len(), 1);
    assert!(safe(&p));
}

#[test]
fn a_virtual_method_of_the_crate_is_opaque() {
    let mut d = Draft::new("f", vec![reference(sys())]);
    let g = d.lock(field(1, 0, mutex("i32")), "i32");
    let unit = d.local(other("()"));
    let callee = Callee {
        path: "Hook::run".to_string(),
        target: None,
        local: true,
        of_trait: true,
    };
    d.call(callee, vec![d.copy(1)], unit);
    d.release(g);
    let (out, p) = run(vec![d.build()]);
    assert_eq!(out.opaque_calls.len(), 1);
    assert!(p.incomplete.is_some());
}

#[test]
fn a_guard_of_unknown_origin_makes_the_analysis_incomplete() {
    let mut d = Draft::new("f", vec![reference(sys())]);
    let g = d.local(guard("i64"));
    d.call(foreign("elsewhere::take"), vec![], g);
    d.lock(field(1, 0, mutex("i32")), "i32");
    let (out, _) = run(vec![d.build()]);
    let reason = out.incomplete.unwrap();
    assert!(reason.starts_with("in f: a Mutex<i64> guard whose lock class could not"));
    assert!(reason.ends_with(
        "be determined is held at src/lib.rs:2, so that held-set is missing an entry"
    ));
}

#[test]
fn a_guard_of_one_of_two_locks_makes_the_analysis_incomplete() {
    // let g = if c { s.a.lock() } else { s.b.lock() }.unwrap(); helper();
    let unwrap = || foreign("std::result::Result::<T, E>::unwrap");
    let lock = || foreign("std::sync::Mutex::<T>::lock");
    let body = |one_result: bool| {
        let mut d = Draft::new("f", vec![reference(sys())]);
        d.end(TermKind::Other);
        let a = d.borrow(mutex("i32"), field(1, 0, mutex("i32")));
        let first = d.local(adt("Result", &[], &[]));
        let second = if one_result { first } else { d.local(adt("Result", &[], &[])) };
        let g = d.local(guard("i32"));
        let arg = vec![d.copy(a)];
        d.call(lock(), arg, first);
        if !one_result {
            let arg = vec![d.take(first)];
            d.call(unwrap(), arg, g);
        }
        let b = d.borrow(mutex("i32"), field(1, 1, mutex("i32")));
        let arg = vec![d.copy(b)];
        d.call(lock(), arg, second);
        let arg = vec![d.take(second)];
        d.call(unwrap(), arg, g);
        let join = d.blocks.len();
        let unit = d.local(other("()"));
        d.call(function("helper"), vec![], unit);
        let branch = if one_result { 2 } else { 3 };
        d.blocks[0].terminator.next = vec![1, branch];
        d.blocks[branch - 1].terminator.next = vec![if one_result { join - 1 } else { join }];
        d.build()
    };
    for one_result in [true, false] {
        let (out, _) = run(vec![body(one_result)]);
        assert!(out
            .incomplete
            .unwrap()
            .starts_with("in f: a Mutex<i32> guard whose lock class could not"));
        // What is known of it still counts.
        assert_eq!(out.calls[0].held, vec!["&Sys.*.b:std::sync::Mutex".to_string()]);
    }
}

#[test]
fn a_guard_of_one_lock_from_two_places_is_known() {
    // if c { g = s.a.lock().unwrap() } else { g = s.a.lock().unwrap() }; helper();
    let mut d = Draft::new("f", vec![reference(sys())]);
    d.end(TermKind::Other);
    let g = d.lock(field(1, 0, mutex("i32")), "i32");
    let r = d.borrow(mutex("i32"), field(1, 0, mutex("i32")));
    let second = d.local(adt("Result", &[], &[]));
    let arg = vec![d.copy(r)];
    d.call(foreign("std::sync::Mutex::<T>::lock"), arg, second);
    let arg = vec![d.take(second)];
    d.call(foreign("std::result::Result::<T, E>::unwrap"), arg, g);
    let unit = d.local(other("()"));
    d.call(function("helper"), vec![], unit);
    d.blocks[0].terminator.next = vec![1, 3];
    d.blocks[2].terminator.next = vec![5];
    let (out, _) = run(vec![d.build()]);
    assert_eq!(out.calls[0].held, vec!["&Sys.*.a:std::sync::Mutex".to_string()]);
    assert!(out.incomplete.is_none());
}

#[test]
fn a_guard_that_comes_back_from_a_wait_is_known() {
    // let mut g = s.a.lock().unwrap(); loop { g = cv.wait(g).unwrap(); helper(); }
    let mut d = Draft::new("f", vec![reference(sys())]);
    let g = d.lock(field(1, 0, mutex("i32")), "i32");
    let head = d.blocks.len();
    let gone = d.moved(guard("i32"), g);
    let waited = d.local(adt("Result", &[], &[]));
    let arg = vec![d.take(gone)];
    d.call(foreign("std::sync::Condvar::wait"), arg, waited);
    let back = d.local(guard("i32"));
    let arg = vec![d.take(waited)];
    d.call(foreign("std::result::Result::<T, E>::unwrap"), arg, back);
    let again = d.take(back);
    d.assign(g, Rvalue::Use(again));
    d.pending.push(Statement::StorageDead(back));
    let unit = d.local(other("()"));
    d.call(function("helper"), vec![], unit);
    let last = d.blocks.len() - 1;
    d.blocks[last].terminator.next = vec![head, last + 1];
    let (out, _) = run(vec![d.build()]);
    assert_eq!(out.calls[0].held, vec!["&Sys.*.a:std::sync::Mutex".to_string()]);
    assert!(out.incomplete.is_none());
}

#[test]
fn two_accessors_of_one_path_are_told_apart_or_reported() {
    let caller = || {
        let mut d = Draft::new("f", vec![reference(sys())]);
        let a = d.local(reference(mutex("i32")));
        let args = vec![d.copy(1)];
        d.call(function("Sys::lock"), args, a);
        d.lock_at(a, "i32");
        d.build()
    };
    let (out, _) = run(vec![caller(), accessor("Sys::lock", 0), accessor("Sys::lock", 0)]);
    assert_eq!(out.events[0].acquires, "&Sys.*.a:std::sync::Mutex");
    assert!(out.incomplete.is_none());
    let (out, _) = run(vec![caller(), accessor("Sys::lock", 0), accessor("Sys::lock", 1)]);
    assert!(out.incomplete.unwrap().contains("`Sys::lock`"));
    let plain = Draft::new("Sys::lock", vec![reference(sys())]).build();
    let (out, _) = run(vec![caller(), accessor("Sys::lock", 0), plain]);
    assert!(out.incomplete.unwrap().contains("`Sys::lock`"));
}

#[test]
fn guards_are_known_by_their_paths() {
    let kind = |path: &str, args: &[&str]| guard_class_of_ty(&adt(path, args, &[])).map(|g| (g.kind, g.data));
    let some = |k: &str, d: &str| Some((k.to_string(), d.to_string()));
    assert_eq!(kind("std::sync::MutexGuard<'_, i32>", &["i32"]), some("Mutex", "i32"));
    assert_eq!(kind("std::sync::RwLockReadGuard<'_, u8>", &["u8"]), some("RwRead", "u8"));
    assert_eq!(kind("std::sync::RwLockWriteGuard<'_, u8>", &["u8"]), some("RwWrite", "u8"));
    assert_eq!(
        kind("lock_api::mutex::MutexGuard<'_, R, u8>", &["R", "u8"]),
        some("Mutex", "u8")
    );
    assert_eq!(kind("parking_lot::MutexGuard<'_>", &["R"]), some("Mutex", "_"));
    assert_eq!(kind("tokio::sync::MutexGuard<'_, u8>", &["u8"]), None);
    assert_eq!(kind("std::vec::Vec<u8>", &["u8"]), None);
    assert!(guard_class_of_ty(&other("i32")).is_none());
    let mut d = Draft::new("f", vec![]);
    d.local(guard("i32"));
    assert_eq!(guards(&d.build()), vec![false, true]);
}

#[test]
fn places_are_followed_back() {
    let mut d = Draft::new("f", vec![reference(sys()), callable()]);
    let r = d.borrow(mutex("i32"), field(1, 0, mutex("i32")));
    let s = d.moved(reference(mutex("i32")), r);
    let c = d.moved(callable(), 2);
    let body = d.build();
    assert_eq!(sole_borrow_source(&body, r).map(|p| p.local), Some(1));
    assert!(sole_borrow_source(&body, 1).is_none());
    let start = whole(r);
    for l in [r, s] {
        let place = whole(l);
        let root = resolve_place_root(&body, Path::behind(&place));
        assert_eq!((root.local, root.proj.len(), root.deref), (1, 2, false));
    }
    assert_eq!(move_chain(&body, s), vec![s, r]);
    assert_eq!(resolve_to_param(&body, c), Some(2));
    assert_eq!(resolve_to_param(&body, r), None);
    assert_eq!(resolve_to_param(&body, 0), None);
    let src = field(1, 0, mutex("i32"));
    let shown = render_place(&body, &Path::at(&src));
    assert_eq!(shown.sym, "&Sys.*.a:std::sync::Mutex");
    assert_eq!(shown.id, "&Sys#1.a");
    let known = Known {
        accessors: NameMap::new(),
        bodies: NameSet::new(),
    };
    let lock = lock_class_of_receiver(&known, &body, &start);
    assert_eq!(lock.class, "&Sys.*.a:std::sync::Mutex");
    assert!(lock.reason.is_none());
}

#[test]
fn paths_are_recognized() {
    assert_eq!(strip_generics("std::sync::Mutex::<i32>::lock"), "std::sync::Mutex::lock");
    assert_eq!(erase_args("Pair<Mutex<T>, U>"), "Pair");
    assert_eq!(erase_args("&Lazy<fn() -> i32>"), "&Lazy");
    assert!(is_lock_acquire("std::sync::Mutex::<T>::lock"));
    assert!(is_lock_acquire("std::sync::RwLock::<T>::read"));
    assert!(is_lock_acquire("std::sync::RwLock::<T>::write"));
    assert!(is_lock_acquire("parking_lot::lock_api::RwLock::<R, T>::read_recursive"));
    assert!(is_lock_acquire("spin::rwlock::RwLock::<T>::read"));
    assert!(!is_lock_acquire("std::sync::Mutex::<T>::try_lock"));
    assert!(!is_lock_acquire("critical_section::Mutex::<T>::borrow"));
    assert!(is_result_unwrap("std::result::Result::<T, E>::unwrap"));
    assert!(is_result_unwrap("std::result::Result::<T, E>::expect"));
    assert!(!is_result_unwrap("std::option::Option::<T>::unwrap"));
    assert!(is_deref_call("std::ops::Deref::deref"));
    assert!(is_deref_call("std::ops::DerefMut::deref_mut"));
    assert!(is_mem_drop("std::mem::drop"));
    assert!(is_mem_drop("core::mem::drop"));
    assert!(!is_mem_drop("std::mem::forget"));
    assert!(is_fn_call_shim("std::ops::FnMut::call_mut"));
    assert!(is_fn_call_shim("std::ops::Fn::call"));
    assert!(!is_fn_call_shim("Hook::call"));
    assert!(is_critical_section_enter("critical_section::with"));
    assert!(is_critical_section_enter("cortex_m::interrupt::free"));
    assert!(!is_critical_section_enter("my::critical_section::with"));
    assert!(is_pointer("std::sync::Arc"));
    assert!(is_pointer("once_cell::sync::Lazy"));
    assert!(is_pointer("Box"));
    assert!(is_pointer("alloc::rc::Rc"));
    assert!(!is_pointer("MyArc"));
}

#[test]
fn bodies_with_dangling_names_are_refused() {
    let d = Draft::new("f", vec![]);
    let mut body = d.build();
    body.blocks[0].terminator.next = vec![1];
    assert!(!body.is_valid());
    let mut d = Draft::new("f", vec![]);
    d.end(TermKind::Drop(whole(0)));
    let mut body = d.build();
    body.blocks[0].terminator.kind = TermKind::Drop(whole(1));
    assert!(!body.is_valid());
    let mut body = Draft::new("f", vec![]).build();
    body.arg_count = 1;
    assert!(!body.is_valid());
}

#[test]
fn the_document_names_its_parts() {
    let out = analyze_crate(&vec![]);
    let keys: Vec<String> = document(&out).iter().map(|m| m.key.clone()).collect();
    assert_eq!(
        keys,
        vec![
            "name",
            "events",
            "class_instances",
            "calls",
            "param_calls",
            "closure_args",
            "opaque_calls",
        ]
    );
    assert_eq!(
        write_events(&out),
        "{\n  \"name\": \"mir\",\n  \"events\": [\n  ],\n  \"class_instances\": {\n  },\n  \
         \"calls\": [\n  ],\n  \"param_calls\": [\n  ],\n  \"closure_args\": [\n  ],\n  \
         \"opaque_calls\": [\n  ]\n}\n"
    );
}

#[test]
fn the_document_is_laid_out_in_lines() {
    let mut out = analyze_crate(&vec![two_statics("g", "Z\"", "A")]);
    out.incomplete = Some("a\\b".to_string());
    assert_eq!(
        write_events(&out),
        "{\n  \"name\": \"mir\",\n  \"events\": [\n    \
         { \"function\": \"g\", \"site\": \"src/lib.rs:1\", \"acquires\": \"Z\\\"\", \"held\": [] },\n    \
         { \"function\": \"g\", \"site\": \"src/lib.rs:3\", \"acquires\": \"A\", \"held\": [\"Z\\\"\"] }\n  \
         ],\n  \"class_instances\": {\n    \"A\": 1,\n    \"Z\\\"\": 1\n  },\n  \
         \"calls\": [\n  ],\n  \"param_calls\": [\n  ],\n  \"closure_args\": [\n  ],\n  \
         \"opaque_calls\": [\n  ],\n  \"incomplete\": \"a\\\\b\"\n}\n"
    );
}
