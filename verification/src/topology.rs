use vstd::prelude::*;

use crate::text::str_equal;

verus! {

/// One entry of a topology's node list as read: its id and its class name,
/// each absent where the entry has no such text field.
#[derive(Clone, Debug)]
pub struct NodeEntry {
    pub id: Option<String>,
    pub class: Option<String>,
}

/// The characters of an optional text.
pub open spec fn text_of(o: Option<String>) -> Option<Seq<char>> {
    match o {
        Some(s) => Some(s@),
        None => None,
    }
}

/// A node entry by its texts: `(id, class)`.
pub open spec fn entry_view(e: NodeEntry) -> (Option<Seq<char>>, Option<Seq<char>>) {
    (text_of(e.id), text_of(e.class))
}

/// The class names by their characters.
pub open spec fn class_names(cs: Seq<String>) -> Seq<Seq<char>> {
    cs.map_values(|c: String| c@)
}

/// The node entries by their texts.
pub open spec fn entry_views(ns: Seq<NodeEntry>) -> Seq<(Option<Seq<char>>, Option<Seq<char>>)> {
    ns.map_values(|e: NodeEntry| entry_view(e))
}

/// Position of the first class named `name`, if any class has that name.
pub open spec fn class_position(classes: Seq<Seq<char>>, name: Seq<char>) -> Option<int>
    decreases classes.len(),
{
    if classes.len() == 0 {
        None
    } else {
        match class_position(classes.drop_last(), name) {
            Some(k) => Some(k),
            None => if classes.last() == name {
                Some(classes.len() - 1)
            } else {
                None
            },
        }
    }
}

/// A node entry resolved against the class names: its id and the position
/// of its class, or the complaint about the first thing it lacks.
pub open spec fn resolve_entry(
    classes: Seq<Seq<char>>,
    e: (Option<Seq<char>>, Option<Seq<char>>),
) -> Result<(Seq<char>, int), Seq<char>> {
    match e.0 {
        None => Err("node.id missing"@),
        Some(id) => match e.1 {
            None => Err("node.class missing"@),
            Some(c) => match class_position(classes, c) {
                None => Err("unknown class "@ + c),
                Some(k) => Ok((id, k)),
            },
        },
    }
}

/// The entries resolved in order; the first entry that fails decides the
/// error.
pub open spec fn resolve_entries(
    classes: Seq<Seq<char>>,
    es: Seq<(Option<Seq<char>>, Option<Seq<char>>)>,
) -> Result<Seq<(Seq<char>, int)>, Seq<char>>
    decreases es.len(),
{
    if es.len() == 0 {
        Ok(Seq::empty())
    } else {
        match resolve_entries(classes, es.drop_last()) {
            Err(msg) => Err(msg),
            Ok(done) => match resolve_entry(classes, es.last()) {
                Err(msg) => Err(msg),
                Ok(p) => Ok(done.push(p)),
            },
        }
    }
}

/// The structure of a topology: the class table must be there, then the
/// node list, and then each node must name an id and a known class.
pub open spec fn topology_nodes(
    classes: Option<Seq<Seq<char>>>,
    nodes: Option<Seq<(Option<Seq<char>>, Option<Seq<char>>)>>,
) -> Result<Seq<(Seq<char>, int)>, Seq<char>> {
    match classes {
        None => Err("topology.classes missing"@),
        Some(cs) => match nodes {
            None => Err("topology.nodes missing"@),
            Some(es) => resolve_entries(cs, es),
        },
    }
}

/// The resolved nodes by their texts and positions.
pub open spec fn resolved_view(r: Result<Vec<(String, usize)>, String>) -> Result<
    Seq<(Seq<char>, int)>,
    Seq<char>,
> {
    match r {
        Ok(v) => Ok(v@.map_values(|p: (String, usize)| (p.0@, p.1 as int))),
        Err(e) => Err(e@),
    }
}

/// Once a prefix of the entries fails, the whole list fails with that error.
proof fn lemma_error_persists(
    classes: Seq<Seq<char>>,
    es: Seq<(Option<Seq<char>>, Option<Seq<char>>)>,
    k: int,
)
    requires
        0 <= k <= es.len(),
        resolve_entries(classes, es.take(k)) is Err,
    ensures
        resolve_entries(classes, es) == resolve_entries(classes, es.take(k)),
    decreases es.len(),
{
    if k == es.len() {
        assert(es.take(k) =~= es);
    } else {
        assert(es.drop_last().take(k) =~= es.take(k));
        lemma_error_persists(classes, es.drop_last(), k);
    }
}

/// The position found holds a class of that name, and none before it does;
/// no position is found only when no class has the name.
pub proof fn lemma_class_position(classes: Seq<Seq<char>>, name: Seq<char>)
    ensures
        match class_position(classes, name) {
            Some(k) => 0 <= k < classes.len() && classes[k] == name && forall|j: int|
                0 <= j < k ==> classes[j] != name,
            None => !classes.contains(name),
        },
    decreases classes.len(),
{
    if classes.len() > 0 {
        let init = classes.drop_last();
        lemma_class_position(init, name);
        if class_position(init, name) is None {
            assert forall|j: int| 0 <= j < classes.len() - 1 implies classes[j] != name by {
                assert(init[j] == classes[j]);
            }
        } else {
            let k = class_position(init, name)->0;
            assert(init[k] == classes[k]);
            assert forall|j: int| 0 <= j < k implies classes[j] != name by {
                assert(init[j] == classes[j]);
            }
        }
    }
}

/// A topology's node list resolves exactly when every entry has an id and
/// names a known class; then each node keeps its id, in order, and is given
/// a class of the name it gave.
pub proof fn lemma_resolved_entries(
    classes: Seq<Seq<char>>,
    es: Seq<(Option<Seq<char>>, Option<Seq<char>>)>,
)
    ensures
        resolve_entries(classes, es) is Ok <==> forall|t: int|
            0 <= t < es.len() ==> (#[trigger] es[t]).0 is Some && es[t].1 is Some
                && classes.contains(es[t].1->0),
        resolve_entries(classes, es) matches Ok(v) ==> {
            &&& v.len() == es.len()
            &&& forall|t: int|
                0 <= t < v.len() ==> {
                    &&& es[t].0 == Some((#[trigger] v[t]).0)
                    &&& 0 <= v[t].1 < classes.len()
                    &&& es[t].1 == Some(classes[v[t].1])
                }
        },
    decreases es.len(),
{
    if es.len() > 0 {
        let init = es.drop_last();
        lemma_resolved_entries(classes, init);
        let last = es.last();
        if last.1 is Some {
            lemma_class_position(classes, last.1->0);
        }
        if resolve_entries(classes, init) is Err {
            let t0 = choose|t: int|
                0 <= t < init.len() && !((#[trigger] init[t]).0 is Some && init[t].1 is Some
                    && classes.contains(init[t].1->0));
            assert(es[t0] == init[t0]);
        } else {
            assert forall|t: int| 0 <= t < init.len() implies (#[trigger] es[t]) == init[t] by {}
        }
    }
}

/// Position of the first entry of `classes` equal to `name`.
fn find_class(classes: &Vec<String>, name: &str) -> (r: Option<usize>)
    ensures
        match r {
            Some(k) => class_position(class_names(classes@), name@) == Some(k as int),
            None => class_position(class_names(classes@), name@) is None,
        },
{
    let ghost cs = class_names(classes@);
    let mut i: usize = 0;
    while i < classes.len()
        invariant
            i <= classes@.len(),
            cs == class_names(classes@),
            class_position(cs.take(i as int), name@) is None,
        decreases classes@.len() - i,
    {
        assert(cs.take(i + 1).drop_last() =~= cs.take(i as int));
        if str_equal(classes[i].as_str(), name) {
            proof {
                lemma_position_in_prefix(cs, name@, i as int + 1);
            }
            return Some(i);
        }
        i = i + 1;
    }
    assert(cs.take(i as int) =~= cs);
    None
}

/// The first match found in a prefix is the first match of the whole list.
proof fn lemma_position_in_prefix(classes: Seq<Seq<char>>, name: Seq<char>, k: int)
    requires
        0 <= k <= classes.len(),
        class_position(classes.take(k), name) is Some,
    ensures
        class_position(classes, name) == class_position(classes.take(k), name),
    decreases classes.len(),
{
    if k == classes.len() {
        assert(classes.take(k) =~= classes);
    } else {
        assert(classes.drop_last().take(k) =~= classes.take(k));
        lemma_position_in_prefix(classes.drop_last(), name, k);
    }
}

/// Checks the structure of a topology and resolves each node's class: the
/// class names and the node entries are given as read (absent where the
/// topology lacks them). Returns each node's id and the position of its
/// class among `classes`, or the error for the first structural fault.
pub fn resolve_topology(classes: &Option<Vec<String>>, nodes: &Option<Vec<NodeEntry>>) -> (r: Result<
    Vec<(String, usize)>,
    String,
>)
    ensures
        resolved_view(r) == topology_nodes(
            match classes {
                Some(cs) => Some(class_names(cs@)),
                None => None,
            },
            match nodes {
                Some(ns) => Some(entry_views(ns@)),
                None => None,
            },
        ),
{
    let table = match classes {
        None => {
            return Err("topology.classes missing".to_owned());
        },
        Some(cs) => cs,
    };
    let entries = match nodes {
        None => {
            return Err("topology.nodes missing".to_owned());
        },
        Some(ns) => ns,
    };
    let ghost cs = class_names(table@);
    let ghost es = entry_views(entries@);
    let mut out: Vec<(String, usize)> = Vec::new();
    let mut i: usize = 0;
    assert(es.take(0) =~= Seq::empty());
    assert(out@.map_values(|p: (String, usize)| (p.0@, p.1 as int)) =~= Seq::empty());
    while i < entries.len()
        invariant
            i <= entries@.len(),
            *classes == Some(*table),
            *nodes == Some(*entries),
            cs == class_names(table@),
            es == entry_views(entries@),
            resolve_entries(cs, es.take(i as int)) == resolved_view(Ok(out)),
        decreases entries@.len() - i,
    {
        assert(es.take(i + 1).drop_last() =~= es.take(i as int));
        let entry = &entries[i];
        let id = match &entry.id {
            None => {
                let msg = "node.id missing".to_owned();
                proof {
                    lemma_error_persists(cs, es, i + 1);
                }
                return Err(msg);
            },
            Some(id) => id,
        };
        let cname = match &entry.class {
            None => {
                let msg = "node.class missing".to_owned();
                proof {
                    lemma_error_persists(cs, es, i + 1);
                }
                return Err(msg);
            },
            Some(c) => c,
        };
        match find_class(table, cname.as_str()) {
            None => {
                let msg = "unknown class ".to_owned().concat(cname.as_str());
                proof {
                    lemma_error_persists(cs, es, i + 1);
                }
                return Err(msg);
            },
            Some(k) => {
                let ghost before = out@;
                out.push((id.clone(), k));
                assert(out@.map_values(|p: (String, usize)| (p.0@, p.1 as int)) =~= before.map_values(
                    |p: (String, usize)| (p.0@, p.1 as int),
                ).push((id@, k as int)));
            },
        }
        i = i + 1;
    }
    assert(es.take(i as int) =~= es);
    Ok(out)
}

} // verus!
