//! The template cache and hierarchy expander: one forward pass over the
//! syntax events builds the instance tree of the top module; a module's body
//! is cached when its end marker is seen, and every later instantiation of it
//! receives its own copy of that body.

use vstd::prelude::*;
use crate::tree::{
    attach_shape, chain, chain_prefix, chains_ok, leaf_paths_of, shape, shapes_of, InstPath,
    InstanceNode, Shape,
};
use crate::tree::lemma_shapes_of;

verus! {

broadcast use vstd::std_specs::vec::group_vec_axioms, vstd::seq::axiom_seq_index_decreases;

/// One syntactic event of the module-definition stream, as the external
/// parser reports it.
pub enum SyntaxEvent {
    /// A module declaration opens: `module <module> ...`.
    ModuleDeclaration { module: String },
    /// An instantiation inside the open body: `<module> <instance> (...)`.
    ModuleInstantiation { instance: String, module: String },
    /// The open body closes: `endmodule`.
    ModuleEnd,
}

/// The mathematical form of a syntax event.
pub enum EventV {
    Decl { module: Seq<char> },
    Inst { instance: Seq<char>, module: Seq<char> },
    End,
}

impl View for SyntaxEvent {
    type V = EventV;

    open spec fn view(&self) -> EventV {
        match self {
            SyntaxEvent::ModuleDeclaration { module } => EventV::Decl { module: module@ },
            SyntaxEvent::ModuleInstantiation { instance, module } => EventV::Inst {
                instance: instance@,
                module: module@,
            },
            SyntaxEvent::ModuleEnd => EventV::End,
        }
    }
}

impl DeepView for SyntaxEvent {
    type V = EventV;

    open spec fn deep_view(&self) -> EventV {
        self.view()
    }
}

/// Why the analysis was aborted.
#[derive(Clone, Copy, Debug, PartialEq, Eq, Structural)]
pub enum BuildError {
    /// An instantiation referenced a module type that no earlier, already
    /// closed declaration had cached.
    UndeclaredModule,
    /// The stream ended before the top module's body was closed.
    MissingTop,
}

/// What the pass computes, stated as a fold over the remaining events.
///
/// `cur_mod` is the name of the open body, `cur` its tree so far, and `cache`
/// holds the body of every module closed so far. A declaration opens a fresh
/// body whose identifier is kept only for the top module; an instantiation
/// attaches the cached body of its type, renamed to the instance name, and
/// aborts when no such body exists; an end marker yields the finished tree
/// for the top module, and otherwise caches the body, first declaration
/// winning.
pub open spec fn build_run(
    events: Seq<EventV>,
    i: int,
    top: Seq<char>,
    cur_mod: Seq<char>,
    cur: Shape,
    cache: Map<Seq<char>, Shape>,
) -> Result<Shape, BuildError>
    decreases events.len() - i,
{
    if i < 0 || i >= events.len() {
        Err(BuildError::MissingTop)
    } else {
        match events[i] {
            EventV::Decl { module } => build_run(
                events,
                i + 1,
                top,
                module,
                Shape {
                    identifier: if module == top {
                        module
                    } else {
                        Seq::empty()
                    },
                    children: Seq::empty(),
                },
                cache,
            ),
            EventV::Inst { instance, module } => {
                if cache.dom().contains(module) {
                    build_run(
                        events,
                        i + 1,
                        top,
                        cur_mod,
                        attach_shape(
                            cur,
                            Shape { identifier: instance, children: cache[module].children },
                        ),
                        cache,
                    )
                } else {
                    Err(BuildError::UndeclaredModule)
                }
            },
            EventV::End => {
                if cur_mod == top {
                    Ok(cur)
                } else if cache.dom().contains(cur_mod) {
                    build_run(events, i + 1, top, cur_mod, cur, cache)
                } else {
                    build_run(
                        events,
                        i + 1,
                        top,
                        cur_mod,
                        Shape { identifier: Seq::empty(), children: Seq::empty() },
                        cache.insert(cur_mod, cur),
                    )
                }
            },
        }
    }
}

/// The tree that the whole event stream yields for `top`, or the abort.
pub open spec fn build_spec(events: Seq<EventV>, top: Seq<char>) -> Result<Shape, BuildError> {
    build_run(
        events,
        0,
        top,
        Seq::empty(),
        Shape { identifier: Seq::empty(), children: Seq::empty() },
        Map::empty(),
    )
}

/// The position of `name` among the cached module names, or the cache length
/// when it is not there.
fn find_cache(cache: &Vec<(String, InstanceNode)>, name: &String) -> (r: usize)
    ensures
        r <= cache@.len(),
        r < cache@.len() ==> (#[trigger] cache@[r as int]).0@ == name@,
        r == cache@.len() ==> forall|i: int|
            0 <= i < cache@.len() ==> (#[trigger] cache@[i]).0@ != name@,
{
    let mut j: usize = 0;
    while j < cache.len()
        invariant
            j <= cache@.len(),
            forall|i: int| 0 <= i < j ==> (#[trigger] cache@[i]).0@ != name@,
        decreases cache@.len() - j,
    {
        if cache[j].0 == *name {
            return j;
        }
        j = j + 1;
    }
    j
}

/// Runs the single pass of the template cache and hierarchy expander over
/// `events` and returns the instance tree rooted at `top`, or the abort that
/// `build_spec` dictates.
pub fn build_instance_tree(events: &Vec<SyntaxEvent>, top: &String) -> (r: Result<
    InstanceNode,
    BuildError,
>)
    ensures
        match r {
            Ok(root) => build_spec(events.deep_view(), top@) == Ok::<Shape, BuildError>(
                shape(root),
            ) && chains_ok(root) && chain(root).len() == 0,
            Err(e) => build_spec(events.deep_view(), top@) == Err::<Shape, BuildError>(e),
        },
{
    let ghost evs = events.deep_view();
    let mut cur_mod: String = String::new();
    let mut cur = InstanceNode {
        identifier: String::new(),
        children: Vec::new(),
        parent: Vec::new(),
    };
    let mut cache: Vec<(String, InstanceNode)> = Vec::new();
    let ghost mut cache_map = Map::<Seq<char>, Shape>::empty();
    proof {
        assert(shape(cur) =~= Shape { identifier: Seq::empty(), children: Seq::empty() });
        assert(chain(cur) =~= Seq::<Seq<char>>::empty());
        assert(evs.len() == events@.len());
    }
    let mut i: usize = 0;
    while i < events.len()
        invariant
            i <= events@.len(),
            evs == events.deep_view(),
            evs.len() == events@.len(),
            build_run(evs, i as int, top@, cur_mod@, shape(cur), cache_map) == build_spec(
                evs,
                top@,
            ),
            chains_ok(cur),
            chain(cur).len() == 0,
            forall|k: int|
                0 <= k < cache@.len() ==> cache_map.dom().contains((#[trigger] cache@[k]).0@)
                    && cache_map[cache@[k].0@] == shape(cache@[k].1),
            forall|s: Seq<char>|
                cache_map.dom().contains(s) ==> exists|k: int|
                    0 <= k < cache@.len() && (#[trigger] cache@[k]).0@ == s,
        decreases events@.len() - i,
    {
        proof {
            assert(evs[i as int] == events@[i as int].deep_view());
        }
        match &events[i] {
            SyntaxEvent::ModuleDeclaration { module } => {
                let ident = if *module == *top {
                    module.clone()
                } else {
                    String::new()
                };
                cur = InstanceNode { identifier: ident, children: Vec::new(), parent: Vec::new() };
                cur_mod = module.clone();
                proof {
                    assert(chain(cur) =~= Seq::<Seq<char>>::empty());
                    assert(shape(cur) =~= Shape {
                        identifier: if module@ == top@ {
                            module@
                        } else {
                            Seq::empty()
                        },
                        children: Seq::empty(),
                    });
                }
            },
            SyntaxEvent::ModuleInstantiation { instance, module } => {
                let idx = find_cache(&cache, module);
                if idx == cache.len() {
                    proof {
                        if cache_map.dom().contains(module@) {
                            let k = choose|k: int|
                                0 <= k < cache@.len() && (#[trigger] cache@[k]).0@ == module@;
                            assert(false);
                        }
                    }
                    return Err(BuildError::UndeclaredModule);
                }
                let ghost body = shape(cache@[idx as int].1);
                let mut node = cache[idx].1.deep_copy();
                node.identifier = instance.clone();
                proof {
                    assert(shapes_of(node.children@) == body.children);
                    assert(shape(node) =~= Shape {
                        identifier: instance@,
                        children: body.children,
                    });
                }
                node.parent = cur.child_chain();
                proof {
                    assert(shape(node) =~= Shape {
                        identifier: instance@,
                        children: body.children,
                    });
                }
                node.change_child_parent();
                let ghost nodeshape = shape(node);
                cur.add_child(node);
                proof {
                    assert(cache_map[module@] == body);
                    assert(nodeshape == Shape { identifier: instance@, children: body.children });
                }
            },
            SyntaxEvent::ModuleEnd => {
                if cur_mod == *top {
                    return Ok(cur);
                }
                let idx = find_cache(&cache, &cur_mod);
                if idx == cache.len() {
                    proof {
                        if cache_map.dom().contains(cur_mod@) {
                            let k = choose|k: int|
                                0 <= k < cache@.len() && (#[trigger] cache@[k]).0@ == cur_mod@;
                            assert(false);
                        }
                    }
                    let ghost key = cur_mod@;
                    let ghost val = shape(cur);
                    let ghost cache_before = cache@;
                    let entry_name = cur_mod.clone();
                    cache.push((entry_name, cur));
                    cur = InstanceNode {
                        identifier: String::new(),
                        children: Vec::new(),
                        parent: Vec::new(),
                    };
                    proof {
                        cache_map = cache_map.insert(key, val);
                        assert(chain(cur) =~= Seq::<Seq<char>>::empty());
                        assert(shape(cur) =~= Shape {
                            identifier: Seq::empty(),
                            children: Seq::empty(),
                        });
                        assert forall|k: int|
                            0 <= k < cache@.len() implies cache_map.dom().contains(
                            (#[trigger] cache@[k]).0@,
                        ) && cache_map[cache@[k].0@] == shape(cache@[k].1) by {
                            if k < cache@.len() - 1 {
                                assert(cache@[k] == cache_before[k]);
                            }
                        }
                        assert forall|s: Seq<char>|
                            cache_map.dom().contains(s) implies exists|k: int|
                            0 <= k < cache@.len() && (#[trigger] cache@[k]).0@ == s by {
                            if s == key {
                                assert(cache@[cache@.len() - 1].0@ == s);
                            } else {
                                let k0 = choose|k: int|
                                    0 <= k < cache_before.len() && (#[trigger] cache_before[k]).0@
                                        == s;
                                assert(cache@[k0].0@ == s);
                            }
                        }
                    }
                } else {
                    proof {
                        assert(cache_map.dom().contains(cur_mod@));
                    }
                }
            },
        }
        i = i + 1;
    }
    Err(BuildError::MissingTop)
}

/// A template is used without being consumed or altered: an instantiation of
/// a cached module attaches that module's declared body with only the root
/// identifier rewritten to the instance name, and the run continues with the
/// cache unchanged — a later instantiation of the same type receives the very
/// same declared body, whether this was its first use or not.
pub proof fn lemma_instantiation_uses_declared_body(
    events: Seq<EventV>,
    i: int,
    top: Seq<char>,
    cur_mod: Seq<char>,
    cur: Shape,
    cache: Map<Seq<char>, Shape>,
    instance: Seq<char>,
    module: Seq<char>,
)
    requires
        0 <= i < events.len(),
        events[i] == (EventV::Inst { instance, module }),
        cache.dom().contains(module),
    ensures
        build_run(events, i, top, cur_mod, cur, cache) == build_run(
            events,
            i + 1,
            top,
            cur_mod,
            attach_shape(cur, Shape { identifier: instance, children: cache[module].children }),
            cache,
        ),
{
}

/// Builds the instance tree for `top` from `events` and returns the path of
/// every leaf instance under it, or the abort that `build_spec` dictates; no
/// path is produced unless the whole tree was built.
pub fn analyze_events(events: &Vec<SyntaxEvent>, top: &String) -> (r: Result<
    Vec<InstPath>,
    BuildError,
>)
    ensures
        match r {
            Ok(paths) => build_spec(events.deep_view(), top@) is Ok && paths.deep_view()
                == leaf_paths_of(build_spec(events.deep_view(), top@)->Ok_0, Seq::empty()),
            Err(e) => build_spec(events.deep_view(), top@) == Err::<Shape, BuildError>(e),
        },
{
    match build_instance_tree(events, top) {
        Ok(root) => {
            let mut instlist: Vec<InstPath> = Vec::new();
            root.traversal(&mut instlist);
            proof {
                assert(chain_prefix(chain(root)) =~= Seq::<char>::empty());
                assert(instlist.deep_view() =~= leaf_paths_of(shape(root), Seq::empty()));
            }
            Ok(instlist)
        },
        Err(e) => Err(e),
    }
}

} // verus!
