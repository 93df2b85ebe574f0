//! Frames and the arena that holds them: binding, lookup along the parent
//! chain, and the search for the frame that owns a binding.

use vstd::prelude::*;

use crate::expr::{copy_names, view_exp, view_seq, EvalError, Exp, Value, lemma_view_seq_all};

verus! {

broadcast use vstd::std_specs::vec::group_vec_axioms, vstd::seq::group_seq_axioms;

/// One lexical scope: the bindings made in it and the id of its parent.
pub struct Env {
    pub outer: Option<usize>,
    pub symbols: Vec<(String, Exp)>,
}

#[verifier::external_type_specification]
#[verifier::external_body]
pub struct ExDefaultKey(slotmap::DefaultKey);

/// The slot map that holds the frames (Verus does not take the map's own
/// declaration, whose key parameter is bound by slotmap's `Key` trait).
#[verifier::external_body]
pub struct FrameSlots {
    slots: slotmap::SlotMap<slotmap::DefaultKey, Env>,
}

/// The values a slot map holds, by key.
pub uninterp spec fn slot_contents(m: FrameSlots) -> Map<slotmap::DefaultKey, Env>;

/// How many slots a slot map has made, its sentinel slot included.
pub uninterp spec fn slot_count(m: FrameSlots) -> nat;

/// Relies on `SlotMap::new`: no values, and only the sentinel slot.
#[verifier::external_body]
fn slots_new() -> (r: FrameSlots)
    ensures
        slot_contents(r).dom() == Set::<slotmap::DefaultKey>::empty(),
        slot_count(r) == 1,
{
    FrameSlots { slots: slotmap::SlotMap::new() }
}

/// Relies on `SlotMap::insert`: the value is stored under a key that was not
/// in use, at most one slot is made, and it panics only when `u32::MAX`
/// slots exist.
#[verifier::external_body]
fn slots_insert(m: &mut FrameSlots, v: Env) -> (k: slotmap::DefaultKey)
    requires
        slot_count(*old(m)) < u32::MAX,
    ensures
        !slot_contents(*old(m)).contains_key(k),
        slot_contents(*final(m)) == slot_contents(*old(m)).insert(k, v),
        slot_count(*final(m)) <= slot_count(*old(m)) + 1,
{
    m.slots.insert(v)
}

/// Relies on `Index` for `SlotMap`: the value under a key in use (it panics
/// on any other key).
#[verifier::external_body]
fn slots_index(m: &FrameSlots, k: slotmap::DefaultKey) -> (r: &Env)
    requires
        slot_contents(*m).contains_key(k),
    ensures
        *r == slot_contents(*m)[k],
{
    &m.slots[k]
}

/// Relies on `IndexMut` for `SlotMap`: replaces the value under a key in use
/// (it panics on any other key).
#[verifier::external_body]
fn slots_set(m: &mut FrameSlots, k: slotmap::DefaultKey, v: Env)
    requires
        slot_contents(*old(m)).contains_key(k),
    ensures
        slot_contents(*final(m)) == slot_contents(*old(m)).insert(k, v),
        slot_count(*final(m)) == slot_count(*old(m)),
{
    m.slots[k] = v;
}

/// The most frames an arena holds.
pub const FRAME_LIMIT: usize = 0xffff_fff0;

/// The arena of frames: a slot map, and the keys of its frames in the order
/// they were made, so that a frame's id is its position there. It only
/// grows. It also collects what `print` renders, for the caller to show.
pub struct EnvTree {
    pub frames: FrameSlots,
    pub keys: Vec<slotmap::DefaultKey>,
    pub printed: Vec<String>,
}

/// The model of a frame.
pub struct Scope {
    pub outer: Option<nat>,
    pub vars: Map<Seq<char>, Value>,
}

/// The model of the arena.
pub struct Store {
    pub scopes: Seq<Scope>,
    pub printed: Seq<Seq<char>>,
}

/// The bindings of a list of entries; a later entry wins over an earlier one.
pub open spec fn vars_of(s: Seq<(String, Exp)>) -> Map<Seq<char>, Value>
    decreases s.len(),
{
    if s.len() == 0 {
        Map::empty()
    } else {
        vars_of(s.drop_last()).insert(s.last().0@, view_exp(s.last().1))
    }
}

pub open spec fn names_unique(s: Seq<(String, Exp)>) -> bool {
    forall|i: int, j: int| 0 <= i < j < s.len() ==> s[i].0@ != s[j].0@
}

/// The bindings of a new frame: parameters paired with arguments by
/// position, as far as the shorter of the two reaches.
pub open spec fn zip_vars(ps: Seq<Seq<char>>, args: Seq<Value>, n: nat) -> Map<Seq<char>, Value>
    decreases n,
{
    if n == 0 {
        Map::empty()
    } else {
        zip_vars(ps, args, (n - 1) as nat).insert(ps[n - 1], args[n - 1])
    }
}

pub open spec fn min_len(a: int, b: int) -> nat {
    if a < b { a as nat } else { b as nat }
}

impl Env {
    pub open spec fn view(&self) -> Scope {
        Scope {
            outer: match self.outer {
                Some(o) => Some(o as nat),
                None => None,
            },
            vars: vars_of(self.symbols@),
        }
    }

    pub open spec fn wf(&self) -> bool {
        names_unique(self.symbols@)
    }
}

impl EnvTree {
    pub open spec fn frame_at(&self, i: int) -> Env {
        slot_contents(self.frames)[self.keys@[i]]
    }

    pub open spec fn view(&self) -> Store {
        Store {
            scopes: Seq::new(self.keys@.len(), |i: int| self.frame_at(i).view()),
            printed: self.printed@.map_values(|s: String| s@),
        }
    }

    /// The keys are distinct and in use; every frame has unique names and a
    /// parent older than itself; the map has made no slots but these and its
    /// sentinel.
    pub open spec fn wf(&self) -> bool {
        &&& forall|i: int| 0 <= i < self.keys@.len() ==> slot_contents(self.frames).contains_key(#[trigger] self.keys@[i])
        &&& forall|i: int, j: int| 0 <= i < j < self.keys@.len() ==> self.keys@[i] != self.keys@[j]
        &&& forall|i: int| 0 <= i < self.keys@.len() ==> {
            &&& #[trigger] self.frame_at(i).wf()
            &&& (self.frame_at(i).outer matches Some(o) ==> o < i)
        }
        &&& slot_count(self.frames) <= self.keys@.len() + 1
        &&& self.keys@.len() <= FRAME_LIMIT
    }
}

/// The value bound to `name` as seen from frame `id`, searching outward.
pub open spec fn resolve_spec(scopes: Seq<Scope>, id: nat, name: Seq<char>) -> Option<Value>
    decreases id,
{
    if id >= scopes.len() {
        None
    } else if scopes[id as int].vars.contains_key(name) {
        Some(scopes[id as int].vars[name])
    } else {
        match scopes[id as int].outer {
            Some(o) => if o < id { resolve_spec(scopes, o, name) } else { None },
            None => None,
        }
    }
}

/// The id of the frame that owns the binding of `name` seen from frame `id`.
pub open spec fn owner_spec(scopes: Seq<Scope>, id: nat, name: Seq<char>) -> Option<nat>
    decreases id,
{
    if id >= scopes.len() {
        None
    } else if scopes[id as int].vars.contains_key(name) {
        Some(id)
    } else {
        match scopes[id as int].outer {
            Some(o) => if o < id { owner_spec(scopes, o, name) } else { None },
            None => None,
        }
    }
}

/// Binds `name` in frame `id` only.
pub open spec fn bind_spec(s: Store, id: nat, name: Seq<char>, v: Value) -> Store {
    Store {
        scopes: s.scopes.update(id as int, Scope { outer: s.scopes[id as int].outer, vars: s.scopes[id as int].vars.insert(name, v) }),
        printed: s.printed,
    }
}

/// Adds a frame whose parent is `outer`.
pub open spec fn child_spec(s: Store, ps: Seq<Seq<char>>, args: Seq<Value>, outer: Option<nat>) -> Store {
    Store {
        scopes: s.scopes.push(Scope { outer, vars: zip_vars(ps, args, min_len(ps.len() as int, args.len() as int)) }),
        printed: s.printed,
    }
}

pub proof fn lemma_vars_of_index(s: Seq<(String, Exp)>, j: int)
    requires
        names_unique(s),
        0 <= j < s.len(),
    ensures
        vars_of(s).contains_key(s[j].0@),
        vars_of(s)[s[j].0@] == view_exp(s[j].1),
    decreases s.len(),
{
    if j < s.len() - 1 {
        lemma_vars_of_index(s.drop_last(), j);
    }
}

pub proof fn lemma_vars_of_absent(s: Seq<(String, Exp)>, k: Seq<char>)
    requires
        forall|j: int| 0 <= j < s.len() ==> s[j].0@ != k,
    ensures
        !vars_of(s).contains_key(k),
    decreases s.len(),
{
    if s.len() > 0 {
        lemma_vars_of_absent(s.drop_last(), k);
    }
}

pub proof fn lemma_vars_of_update(s: Seq<(String, Exp)>, j: int, e: (String, Exp))
    requires
        names_unique(s),
        0 <= j < s.len(),
        s[j].0@ == e.0@,
    ensures
        vars_of(s.update(j, e)) == vars_of(s).insert(e.0@, view_exp(e.1)),
        names_unique(s.update(j, e)),
    decreases s.len(),
{
    let t = s.update(j, e);
    if j == s.len() - 1 {
        assert(t.drop_last() =~= s.drop_last());
        if vars_of(s.drop_last()).contains_key(e.0@) {
            lemma_vars_of_absent(s.drop_last(), e.0@);
        }
        assert(vars_of(t) =~= vars_of(s).insert(e.0@, view_exp(e.1)));
    } else {
        lemma_vars_of_update(s.drop_last(), j, e);
        assert(t.drop_last() =~= s.drop_last().update(j, e));
        assert(vars_of(t) =~= vars_of(s).insert(e.0@, view_exp(e.1)));
    }
}

impl Env {
    /// A frame with no bindings.
    pub fn empty(outer: Option<usize>) -> (r: Env)
        ensures
            r.outer == outer,
            r.symbols@.len() == 0,
            r.wf(),
            r.view().vars == Map::<Seq<char>, Value>::empty(),
    {
        Env { outer, symbols: Vec::new() }
    }

    /// A deep copy.
    pub fn copy(&self) -> (r: Env)
        requires
            self.wf(),
        ensures
            r.wf(),
            r.view() == self.view(),
            r.outer == self.outer,
    {
        let mut symbols: Vec<(String, Exp)> = Vec::new();
        let mut i: usize = 0;
        while i < self.symbols.len()
            invariant
                i <= self.symbols@.len(),
                self.wf(),
                symbols@.len() == i,
                forall|k: int| 0 <= k < i ==> (#[trigger] symbols@[k]).0@ == self.symbols@[k].0@
                    && view_exp(symbols@[k].1) == view_exp(self.symbols@[k].1),
                vars_of(symbols@) == vars_of(self.symbols@.subrange(0, i as int)),
            decreases self.symbols@.len() - i,
        {
            let entry = (self.symbols[i].0.clone(), self.symbols[i].1.duplicate());
            let ghost before = symbols@;
            symbols.push(entry);
            proof {
                assert(symbols@.drop_last() =~= before);
                assert(self.symbols@.subrange(0, i + 1).drop_last() =~= self.symbols@.subrange(0, i as int));
            }
            i = i + 1;
        }
        assert(self.symbols@.subrange(0, self.symbols@.len() as int) =~= self.symbols@);
        Env { outer: self.outer, symbols }
    }

    /// The position of `symbol` among the entries, if it is bound here.
    fn position(&self, symbol: &String) -> (r: Option<usize>)
        requires
            self.wf(),
        ensures
            match r {
                Some(j) => j < self.symbols@.len() && self.symbols@[j as int].0@ == symbol@,
                None => !self.view().vars.contains_key(symbol@),
            },
    {
        let mut i: usize = 0;
        while i < self.symbols.len()
            invariant
                i <= self.symbols@.len(),
                forall|j: int| 0 <= j < i ==> self.symbols@[j].0@ != symbol@,
            decreases self.symbols@.len() - i,
        {
            if self.symbols[i].0 == *symbol {
                return Some(i);
            }
            i = i + 1;
        }
        proof {
            lemma_vars_of_absent(self.symbols@, symbol@);
        }
        None
    }

    /// Binds `symbol` in this frame, replacing an earlier binding of it.
    pub fn insert(&mut self, symbol: String, exp: Exp)
        requires
            old(self).wf(),
        ensures
            final(self).wf(),
            final(self).outer == old(self).outer,
            final(self).view().vars == old(self).view().vars.insert(symbol@, view_exp(exp)),
    {
        match self.position(&symbol) {
            Some(j) => {
                proof {
                    lemma_vars_of_update(self.symbols@, j as int, (symbol, exp));
                }
                self.symbols.set(j, (symbol, exp));
            },
            None => {
                let ghost s = self.symbols@;
                self.symbols.push((symbol, exp));
                proof {
                    assert(self.symbols@.drop_last() =~= s);
                    assert forall|a: int, b: int| 0 <= a < b < self.symbols@.len() implies self.symbols@[a].0@ != self.symbols@[b].0@ by {
                        if b == s.len() {
                            lemma_vars_of_index(s, a);
                        }
                    }
                }
            },
        }
    }

    /// Binds `symbol` to a native procedure in this frame.
    pub fn insert_fn(&mut self, symbol: String, function: crate::expr::Builtin)
        requires
            old(self).wf(),
        ensures
            final(self).wf(),
            final(self).outer == old(self).outer,
            final(self).view().vars == old(self).view().vars.insert(symbol@, Value::Function(function)),
    {
        self.insert(symbol, Exp::Function(function))
    }

    /// The value bound to `symbol` in this frame alone.
    pub fn get(&self, symbol: &String) -> (r: Option<Exp>)
        requires
            self.wf(),
        ensures
            match r {
                Some(e) => self.view().vars.contains_key(symbol@) && view_exp(e) == self.view().vars[symbol@],
                None => !self.view().vars.contains_key(symbol@),
            },
    {
        match self.position(symbol) {
            Some(j) => {
                proof {
                    lemma_vars_of_index(self.symbols@, j as int);
                }
                Some(self.symbols[j].1.duplicate())
            },
            None => None,
        }
    }
}

/// The value seen from a frame that need not be in the arena: its own
/// binding first, then the chain that starts at its parent.
pub open spec fn resolve_through(scope: Scope, scopes: Seq<Scope>, name: Seq<char>) -> Option<Value> {
    if scope.vars.contains_key(name) {
        Some(scope.vars[name])
    } else {
        match scope.outer {
            Some(o) => resolve_spec(scopes, o, name),
            None => None,
        }
    }
}

impl Env {
    /// The value bound to `symbol`, searching this frame and then its parents.
    pub fn resolve(&self, env_tree: &EnvTree, symbol: &String) -> (r: Result<Exp, EvalError>)
        requires
            self.wf(),
            env_tree.wf(),
            self.outer matches Some(o) ==> o < env_tree.keys@.len(),
        ensures
            match resolve_through(self.view(), env_tree.view().scopes, symbol@) {
                Some(v) => r matches Ok(e) && view_exp(e) == v,
                None => r matches Err(EvalError::UnboundSymbol(n)) && n@ == symbol@,
            },
    {
        match self.get(symbol) {
            Some(e) => Ok(e),
            None => match self.outer {
                Some(o) => env_tree.lookup(o, symbol),
                None => Err(EvalError::UnboundSymbol(symbol.clone())),
            },
        }
    }

    /// The id of the frame that owns `symbol`, where `current` is this frame's id.
    pub fn find(&self, env_tree: &EnvTree, symbol: &String, current: usize) -> (r: Result<usize, EvalError>)
        requires
            self.wf(),
            env_tree.wf(),
            self.outer matches Some(o) ==> o < env_tree.keys@.len(),
        ensures
            self.view().vars.contains_key(symbol@) ==> r == Ok::<usize, EvalError>(current),
            !self.view().vars.contains_key(symbol@) ==> match self.outer {
                Some(o) => match owner_spec(env_tree.view().scopes, o as nat, symbol@) {
                    Some(k) => r matches Ok(id) && id as nat == k,
                    None => r matches Err(EvalError::UnboundSymbol(n)) && n@ == symbol@,
                },
                None => r matches Err(EvalError::UnboundSymbol(n)) && n@ == symbol@,
            },
    {
        match self.position(symbol) {
            Some(j) => {
                proof {
                    lemma_vars_of_index(self.symbols@, j as int);
                }
                Ok(current)
            },
            None => match self.outer {
                Some(o) => env_tree.owner(o, symbol),
                None => Err(EvalError::UnboundSymbol(symbol.clone())),
            },
        }
    }

    /// Adds a frame to the arena that binds `parameters` to `arguments` by
    /// position and has `outer` as its parent; returns its id.
    pub fn insert_into(env_tree: &mut EnvTree, parameters: Vec<String>, arguments: Vec<Exp>, outer: Option<usize>) -> (r: usize)
        requires
            old(env_tree).wf(),
            outer matches Some(o) ==> o < old(env_tree).keys@.len(),
            old(env_tree).keys@.len() < FRAME_LIMIT,
        ensures
            final(env_tree).wf(),
            r == old(env_tree).keys@.len(),
            final(env_tree).keys@.len() == old(env_tree).keys@.len() + 1,
            final(env_tree).view() == child_spec(
                old(env_tree).view(),
                crate::expr::view_names(parameters@),
                view_seq(arguments@),
                match outer {
                    Some(o) => Some(o as nat),
                    None => None,
                },
            ),
    {
        let mut frame = Env::empty(outer);
        let n: usize = if parameters.len() < arguments.len() { parameters.len() } else { arguments.len() };
        let ghost ps = crate::expr::view_names(parameters@);
        let ghost vs = view_seq(arguments@);
        proof {
            lemma_view_seq_all(arguments@);
        }
        let mut i: usize = 0;
        while i < n
            invariant
                n <= parameters@.len(),
                n <= arguments@.len(),
                n == min_len(ps.len() as int, vs.len() as int),
                ps == crate::expr::view_names(parameters@),
                vs == view_seq(arguments@),
                vs.len() == arguments@.len(),
                forall|k: int| 0 <= k < arguments@.len() ==> #[trigger] vs[k] == view_exp(arguments@[k]),
                i <= n,
                frame.wf(),
                frame.outer == outer,
                frame.view().vars == zip_vars(ps, vs, i as nat),
            decreases n - i,
        {
            let e = arguments[i].duplicate();
            frame.insert(parameters[i].clone(), e);
            i = i + 1;
        }
        Env::insert_into_frame(env_tree, frame)
    }

    /// Adds a finished frame to the arena; returns its id.
    pub fn insert_into_frame(env_tree: &mut EnvTree, frame: Env) -> (r: usize)
        requires
            old(env_tree).wf(),
            frame.wf(),
            frame.outer matches Some(o) ==> o < old(env_tree).keys@.len(),
            old(env_tree).keys@.len() < FRAME_LIMIT,
        ensures
            final(env_tree).wf(),
            r == old(env_tree).keys@.len(),
            final(env_tree).keys@.len() == old(env_tree).keys@.len() + 1,
            final(env_tree).view() == (Store {
                scopes: old(env_tree).view().scopes.push(frame.view()),
                printed: old(env_tree).view().printed,
            }),
    {
        let r = env_tree.keys.len();
        let ghost fv = frame.view();
        let key = slots_insert(&mut env_tree.frames, frame);
        env_tree.keys.push(key);
        proof {
            assert forall|k: int| 0 <= k < r implies #[trigger] env_tree.frame_at(k) == old(env_tree).frame_at(k) by {
                assert(old(env_tree).keys@[k] != key);
            }
            assert(env_tree.view().scopes =~= old(env_tree).view().scopes.push(fv));
            assert forall|k: int| 0 <= k < env_tree.keys@.len() implies {
                &&& #[trigger] env_tree.frame_at(k).wf()
                &&& (env_tree.frame_at(k).outer matches Some(o) ==> o < k)
            } by {
                if k < r {
                    assert(old(env_tree).frame_at(k).wf());
                    assert(env_tree.frame_at(k) == old(env_tree).frame_at(k));
                }
            }
            assert forall|k: int| 0 <= k < env_tree.keys@.len() implies slot_contents(env_tree.frames).contains_key(#[trigger] env_tree.keys@[k]) by {
                if k < r {
                    assert(slot_contents(old(env_tree).frames).contains_key(old(env_tree).keys@[k]));
                }
            }
        }
        r
    }
}

impl EnvTree {
    /// An arena with no frames.
    pub fn empty() -> (r: EnvTree)
        ensures
            r.wf(),
            r.view().scopes.len() == 0,
            r.view().printed.len() == 0,
    {
        EnvTree { frames: slots_new(), keys: Vec::new(), printed: Vec::new() }
    }

    /// The value bound to `name` seen from frame `id`.
    pub fn lookup(&self, id: usize, name: &String) -> (r: Result<Exp, EvalError>)
        requires
            self.wf(),
            id < self.keys@.len(),
        ensures
            match resolve_spec(self.view().scopes, id as nat, name@) {
                Some(v) => r matches Ok(e) && view_exp(e) == v,
                None => r matches Err(EvalError::UnboundSymbol(n)) && n@ == name@,
            },
    {
        let mut cur = id;
        loop
            invariant
                self.wf(),
                cur < self.keys@.len(),
                resolve_spec(self.view().scopes, id as nat, name@) == resolve_spec(self.view().scopes, cur as nat, name@),
            decreases cur,
        {
            assert(self.frame_at(cur as int).wf());
            match self.frame(cur).get(name) {
                Some(e) => {
                    return Ok(e);
                },
                None => {},
            }
            match self.frame(cur).outer {
                Some(o) => {
                    cur = o;
                },
                None => {
                    return Err(EvalError::UnboundSymbol(name.clone()));
                },
            }
        }
    }

    /// The id of the frame that owns `name` seen from frame `id`.
    pub fn owner(&self, id: usize, name: &String) -> (r: Result<usize, EvalError>)
        requires
            self.wf(),
            id < self.keys@.len(),
        ensures
            match owner_spec(self.view().scopes, id as nat, name@) {
                Some(k) => r matches Ok(o) && o as nat == k && k < self.keys@.len(),
                None => r matches Err(EvalError::UnboundSymbol(n)) && n@ == name@,
            },
    {
        let mut cur = id;
        loop
            invariant
                self.wf(),
                cur < self.keys@.len(),
                owner_spec(self.view().scopes, id as nat, name@) == owner_spec(self.view().scopes, cur as nat, name@),
            decreases cur,
        {
            assert(self.frame_at(cur as int).wf());
            match self.frame(cur).get(name) {
                Some(_) => {
                    return Ok(cur);
                },
                None => {},
            }
            match self.frame(cur).outer {
                Some(o) => {
                    cur = o;
                },
                None => {
                    return Err(EvalError::UnboundSymbol(name.clone()));
                },
            }
        }
    }

    /// The frame with id `id`.
    pub fn frame(&self, id: usize) -> (r: &Env)
        requires
            self.wf(),
            id < self.keys@.len(),
        ensures
            *r == self.frame_at(id as int),
            r.view() == self.view().scopes[id as int],
            r.wf(),
    {
        assert(self.frame_at(id as int).wf());
        slots_index(&self.frames, self.keys[id])
    }

    /// Binds `name` in frame `id`, replacing an earlier binding there.
    pub fn bind(&mut self, id: usize, name: String, exp: Exp)
        requires
            old(self).wf(),
            id < old(self).keys@.len(),
        ensures
            final(self).wf(),
            final(self).keys@.len() == old(self).keys@.len(),
            final(self).view() == bind_spec(old(self).view(), id as nat, name@, view_exp(exp)),
    {
        let ghost v = view_exp(exp);
        let ghost nm = name@;
        let mut frame = self.frame(id).copy();
        frame.insert(name, exp);
        let key = self.keys[id];
        let ghost fv = frame.view();
        slots_set(&mut self.frames, key, frame);
        proof {
            assert forall|k: int| 0 <= k < self.keys@.len() && k != id implies #[trigger] self.frame_at(k) == old(self).frame_at(k) by {
                assert(old(self).keys@[k] != key);
            }
            assert(self.view().scopes =~= bind_spec(old(self).view(), id as nat, nm, v).scopes);
            assert forall|k: int| 0 <= k < self.keys@.len() implies {
                &&& #[trigger] self.frame_at(k).wf()
                &&& (self.frame_at(k).outer matches Some(o) ==> o < k)
            } by {
                assert(old(self).frame_at(k).wf());
            }
            assert forall|k: int| 0 <= k < self.keys@.len() implies slot_contents(self.frames).contains_key(#[trigger] self.keys@[k]) by {
                assert(slot_contents(old(self).frames).contains_key(old(self).keys@[k]));
            }
        }
    }

    /// Appends a line to what `print` has produced.
    pub fn record(&mut self, line: String)
        requires
            old(self).wf(),
        ensures
            final(self).wf(),
            final(self).keys@.len() == old(self).keys@.len(),
            final(self).view() == (Store { scopes: old(self).view().scopes, printed: old(self).view().printed.push(line@) }),
    {
        self.printed.push(line);
        proof {
            assert forall|k: int| 0 <= k < self.keys@.len() implies #[trigger] self.frame_at(k) == old(self).frame_at(k) by {}
            assert(self.view().scopes =~= old(self).view().scopes);
            assert(self.view().printed =~= old(self).view().printed.push(line@));
            assert forall|k: int| 0 <= k < self.keys@.len() implies {
                &&& #[trigger] self.frame_at(k).wf()
                &&& (self.frame_at(k).outer matches Some(o) ==> o < k)
            } by {
                assert(old(self).frame_at(k).wf());
            }
        }
    }
}

} // verus!
