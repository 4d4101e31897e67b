use scm_core::dagset::DagSet;
use scm_core::error::DagError;
use scm_core::idmap::{IdMap, VertexName};
use scm_core::nameset::{NameSet, SetOp, StaticSet};
use scm_core::spanset::SpanSet;
use std::sync::Arc;

type Result<T> = std::result::Result<T, DagError>;

fn name(text: &str) -> VertexName {
    VertexName::new(text.as_bytes().to_vec())
}

fn text(name: &VertexName) -> String {
    String::from_utf8(name.as_bytes().to_vec()).unwrap()
}

fn texts(names: &[VertexName]) -> Vec<String> {
    names.iter().map(text).collect()
}

/// A graph with named vertices, ids given in the order of the names.
struct TestDag {
    names: Vec<&'static str>,
    parents: Vec<Vec<u64>>,
    map: Arc<IdMap>,
}

impl TestDag {
    fn id(&self, vertex: &str) -> u64 {
        self.names.iter().position(|n| *n == vertex).unwrap() as u64
    }

    fn ancestor_ids(&self, vertex: &str) -> Vec<u64> {
        let mut seen = vec![self.id(vertex)];
        let mut at = 0;
        while at < seen.len() {
            for p in &self.parents[seen[at] as usize] {
                if !seen.contains(p) {
                    seen.push(*p);
                }
            }
            at += 1;
        }
        seen
    }

    fn set_of(&self, ids: Vec<u64>) -> NameSet {
        NameSet::Dag(DagSet::from_spans_idmap(SpanSet::from_ids(&ids), self.map.clone()))
    }

    fn ancestors(&self, vertex: &str) -> Result<NameSet> {
        Ok(self.set_of(self.ancestor_ids(vertex)))
    }

    /// The vertices that descend from `root` and are ancestors of `head`.
    fn range(&self, root: &str, head: &str) -> Result<NameSet> {
        let root_id = self.id(root);
        let ids = self
            .ancestor_ids(head)
            .into_iter()
            .filter(|id| self.ancestor_ids(self.names[*id as usize]).contains(&root_id))
            .collect();
        Ok(self.set_of(ids))
    }
}

/// Test with a predefined DAG.
fn with_dag<R, F: Fn(&TestDag) -> R>(func: F) -> R {
    // A--B--C--D
    //     \--E--F--G
    //
    // 0--1--2--3
    //     \--4--5--6
    let names = vec!["A", "B", "C", "D", "E", "F", "G"];
    let parents: Vec<Vec<u64>> =
        vec![vec![], vec![0], vec![1], vec![2], vec![1], vec![4], vec![5]];
    let mut map = IdMap::new();
    for (id, n) in names.iter().enumerate() {
        let (next, added) = map.insert(id as u64, name(n));
        assert!(added);
        map = next;
    }
    let dag = TestDag { names, parents, map: Arc::new(map) };
    func(&dag)
}

/// What every vertex set must keep to, whatever stands behind it.
fn check_invariants(set: &NameSet) -> Result<()> {
    let forward = texts(&set.iter()?);
    let mut backward = texts(&set.iter_rev()?);
    backward.reverse();
    assert_eq!(forward, backward, "iter_rev() should be the reversed iter()");
    assert_eq!(set.count()?, forward.len() as u64, "count() should match iter()");
    assert_eq!(set.first()?.as_ref().map(text), forward.first().cloned());
    assert_eq!(set.last()?.as_ref().map(text), forward.last().cloned());
    assert_eq!(set.is_empty()?, forward.is_empty());
    for n in &forward {
        assert!(set.contains(&name(n))?, "contains() should hold what iter() gives");
    }
    for n in ["A", "B", "C", "D", "E", "F", "G", "H", ""] {
        assert_eq!(set.contains(&name(n))?, forward.iter().any(|f| f == n));
    }
    let mut sorted = forward.clone();
    sorted.sort();
    sorted.dedup();
    assert_eq!(sorted.len(), forward.len(), "iter() should give no name twice");
    Ok(())
}

#[test]
fn test_dag_invariants() -> Result<()> {
    with_dag(|dag| {
        let bef = dag.range("B", "F")?;
        check_invariants(&bef)?;

        Ok(())
    })
}

#[test]
fn test_dag_fast_paths() -> Result<()> {
    with_dag(|dag| {
        let abcd = dag.ancestors("D")?;
        let abefg = dag.ancestors("G")?;

        let ab = abcd.intersection(&abefg);
        check_invariants(&ab)?;
        // should not be "<and <...> <...>>"
        assert_eq!(ab.debug_string(), "<dag [0 1]>");

        let abcdefg = abcd.union(&abefg);
        check_invariants(&abcd)?;
        // should not be "<or <...> <...>>"
        assert_eq!(abcdefg.debug_string(), "<dag [0..=6]>");

        let cd = abcd.difference(&abefg);
        check_invariants(&cd)?;
        // should not be "<difference <...> <...>>"
        assert_eq!(cd.debug_string(), "<dag [2 3]>");

        Ok(())
    })
}

#[test]
fn test_dag_no_fast_paths() -> Result<()> {
    with_dag(|dag1| -> Result<()> {
        with_dag(|dag2| -> Result<()> {
            let abcd = dag1.ancestors("D")?;
            let abefg = dag2.ancestors("G")?;

            // Since abcd and abefg are from 2 "separate" Dags, fast paths should not
            // be used for intersection, union, and difference.

            let ab = abcd.intersection(&abefg);
            check_invariants(&ab)?;
            // should not be "<dag ...>"
            assert_eq!(ab.debug_string(), "<and <dag [0..=3]> <dag [0 1 4 5 6]>>");

            let abcdefg = abcd.union(&abefg);
            check_invariants(&abcd)?;
            // should not be "<dag ...>"
            assert_eq!(abcdefg.debug_string(), "<or <dag [0..=3]> <dag [0 1 4 5 6]>>");

            let cd = abcd.difference(&abefg);
            check_invariants(&cd)?;
            // should not be "<dag ...>"
            assert_eq!(cd.debug_string(), "<difference <dag [0..=3]> <dag [0 1 4 5 6]>>");

            Ok(())
        })
    })
}

#[test]
fn test_range_holds_what_lies_between() -> Result<()> {
    with_dag(|dag| {
        let bef = dag.range("B", "F")?;
        assert_eq!(texts(&bef.iter()?), vec!["F", "E", "B"]);
        assert_eq!(texts(&bef.iter_rev()?), vec!["B", "E", "F"]);
        assert_eq!(bef.debug_string(), "<dag [1 4 5]>");
        Ok(())
    })
}

#[test]
fn test_dag_walks_from_the_largest_id_down() -> Result<()> {
    with_dag(|dag| {
        let abefg = dag.ancestors("G")?;
        assert_eq!(texts(&abefg.iter()?), vec!["G", "F", "E", "B", "A"]);
        assert_eq!(texts(&abefg.iter_rev()?), vec!["A", "B", "E", "F", "G"]);
        assert_eq!(abefg.first()?.as_ref().map(text), Some("G".to_string()));
        assert_eq!(abefg.last()?.as_ref().map(text), Some("A".to_string()));
        assert_eq!(abefg.count()?, 5);
        assert!(!abefg.is_empty()?);
        assert!(abefg.is_topo_sorted());
        assert!(abefg.contains(&name("E"))?);
        assert!(!abefg.contains(&name("C"))?);
        assert!(!abefg.contains(&name("Z"))?);
        Ok(())
    })
}

#[test]
fn test_dag_cursor_steps_one_name_at_a_time() -> Result<()> {
    with_dag(|dag| {
        let abcd = dag.ancestors("D")?;
        let set = abcd.as_dag().unwrap();
        let mut cursor = set.iter()?;
        let mut seen = Vec::new();
        while let Some(item) = cursor.next() {
            seen.push(text(&item?));
        }
        assert_eq!(seen, vec!["D", "C", "B", "A"]);
        assert!(cursor.next().is_none());

        let mut cursor = set.iter_rev()?;
        assert_eq!(text(&cursor.next().unwrap()?), "A");
        assert_eq!(text(&cursor.next().unwrap()?), "B");
        // a second cursor starts afresh
        let mut again = set.iter_rev()?;
        assert_eq!(text(&again.next().unwrap()?), "A");
        assert_eq!(texts(&cursor.collect()?), vec!["C", "D"]);
        Ok(())
    })
}

#[test]
fn test_fast_and_general_way_agree() -> Result<()> {
    with_dag(|dag| {
        let abcd = dag.ancestors("D")?;
        let abefg = dag.ancestors("G")?;
        let x = abcd.as_dag().unwrap();
        let y = abefg.as_dag().unwrap();
        for op in [SetOp::And, SetOp::Or, SetOp::Difference] {
            let fast = NameSet::combine_dag(op, x, y, true);
            let general = NameSet::combine_dag(op, x, y, false);
            assert!(fast.as_dag().is_some());
            assert!(general.as_dag().is_none());
            check_invariants(&fast)?;
            check_invariants(&general)?;
            let mut a = texts(&fast.iter()?);
            let mut b = texts(&general.iter()?);
            a.sort();
            b.sort();
            assert_eq!(a, b);
            assert_eq!(fast.count()?, general.count()?);
        }
        let or = NameSet::combine_dag(SetOp::Or, x, y, false);
        assert_eq!(texts(&or.iter()?), vec!["D", "C", "B", "A", "G", "F", "E"]);
        assert_eq!(texts(&or.iter_rev()?), vec!["E", "F", "G", "A", "B", "C", "D"]);
        assert!(!or.is_topo_sorted());
        let and = NameSet::combine_dag(SetOp::And, x, y, false);
        assert_eq!(texts(&and.iter()?), vec!["B", "A"]);
        assert!(and.is_topo_sorted());
        let difference = NameSet::combine_dag(SetOp::Difference, x, y, false);
        assert_eq!(texts(&difference.iter()?), vec!["D", "C"]);
        assert_eq!(difference.count()?, 2);
        Ok(())
    })
}

#[test]
fn test_sets_combined_with_themselves() -> Result<()> {
    with_dag(|dag| {
        let abcd = dag.ancestors("D")?;
        assert_eq!(abcd.union(&abcd).debug_string(), abcd.debug_string());
        assert_eq!(abcd.intersection(&abcd).debug_string(), abcd.debug_string());
        let none = abcd.difference(&abcd);
        assert_eq!(none.debug_string(), "<dag []>");
        assert!(none.is_empty()?);
        assert_eq!(none.first()?.as_ref().map(text), None);
        assert_eq!(none.last()?.as_ref().map(text), None);
        assert_eq!(none.count()?, 0);
        check_invariants(&none)?;
        Ok(())
    })
}

#[test]
fn test_id_without_name_fails_when_reached() {
    with_dag(|dag| {
        // ids 5..=8: the map ends at 6
        let set = dag.set_of(vec![5, 6, 7, 8]);
        assert_eq!(set.count(), Ok(4));
        assert_eq!(set.is_empty(), Ok(false));
        assert_eq!(set.iter().err(), Some(DagError::LookupFailure { id: 8 }));
        assert_eq!(set.iter_rev().err(), Some(DagError::LookupFailure { id: 7 }));
        assert_eq!(set.first().err(), Some(DagError::LookupFailure { id: 8 }));
        assert_eq!(set.last().unwrap().as_ref().map(text), Some("F".to_string()));
        assert_eq!(set.contains(&name("G")), Ok(true));
        assert_eq!(DagError::LookupFailure { id: 8 }.message(), "no vertex name for id 8");

        // the cursor goes on after a failure
        let mut cursor = set.as_dag().unwrap().iter().unwrap();
        assert_eq!(cursor.next().unwrap().err(), Some(DagError::LookupFailure { id: 8 }));
        assert_eq!(cursor.next().unwrap().err(), Some(DagError::LookupFailure { id: 7 }));
        assert_eq!(cursor.next().unwrap().as_ref().map(text), Ok("G".to_string()));
        assert_eq!(cursor.next().unwrap().as_ref().map(text), Ok("F".to_string()));
        assert!(cursor.next().is_none());

        // a combination fails where the walk through its first operand fails
        let abcd = dag.ancestors("D").unwrap();
        let and = NameSet::combine_dag(SetOp::And, set.as_dag().unwrap(), abcd.as_dag().unwrap(), false);
        assert_eq!(and.iter().err(), Some(DagError::LookupFailure { id: 8 }));
        assert_eq!(and.count().err(), Some(DagError::LookupFailure { id: 8 }));
        let other = NameSet::combine_dag(SetOp::And, abcd.as_dag().unwrap(), set.as_dag().unwrap(), false);
        assert_eq!(other.iter().map(|n| n.len()), Ok(0));
    })
}

#[test]
fn test_static_sets_combine_the_general_way() -> Result<()> {
    with_dag(|dag| {
        let list = NameSet::Static(StaticSet::from_names(vec![
            name("C"),
            name("X"),
            name("A"),
            name("C"),
        ]));
        assert_eq!(texts(&list.iter()?), vec!["C", "X", "A"]);
        assert_eq!(texts(&list.iter_rev()?), vec!["A", "X", "C"]);
        assert_eq!(list.debug_string(), "<static [43 58 41]>");
        assert!(!list.is_topo_sorted());
        assert!(list.as_dag().is_none());
        check_invariants(&list)?;

        let abcd = dag.ancestors("D")?;
        let both = abcd.intersection(&list);
        assert_eq!(both.debug_string(), "<and <dag [0..=3]> <static [43 58 41]>>");
        assert_eq!(texts(&both.iter()?), vec!["C", "A"]);
        check_invariants(&both)?;

        let either = list.union(&abcd);
        assert_eq!(texts(&either.iter()?), vec!["C", "X", "A", "D", "B"]);
        assert_eq!(either.count()?, 5);
        check_invariants(&either)?;

        let rest = list.difference(&abcd);
        assert_eq!(texts(&rest.iter()?), vec!["X"]);
        assert_eq!(rest.first()?.as_ref().map(text), Some("X".to_string()));
        check_invariants(&rest)?;

        let nested = either.difference(&both);
        assert_eq!(
            nested.debug_string(),
            "<difference <or <static [43 58 41]> <dag [0..=3]>> <and <dag [0..=3]> <static [43 58 41]>>>"
        );
        assert_eq!(texts(&nested.iter()?), vec!["X", "D", "B"]);
        check_invariants(&nested)?;

        let empty = NameSet::Static(StaticSet::from_names(vec![]));
        assert_eq!(empty.debug_string(), "<static []>");
        assert!(empty.is_empty()?);
        assert_eq!(empty.count()?, 0);
        Ok(())
    })
}

#[test]
fn test_clone_shares_the_map() -> Result<()> {
    with_dag(|dag| {
        let abcd = dag.ancestors("D")?;
        let copy = abcd.clone();
        // a copy stands on the same map, so the quick way is open
        assert_eq!(abcd.intersection(&copy).debug_string(), "<dag [0..=3]>");
        Ok(())
    })
}

#[test]
fn test_idmap_is_append_only_and_one_to_one() {
    let map = IdMap::new();
    assert_eq!(map.vertex_name(0).err(), Some(DagError::LookupFailure { id: 0 }));
    assert_eq!(map.find_id_by_name(b"A"), Ok(None));
    let (map, added) = map.insert(3, name("A"));
    assert!(added);
    let (map, added) = map.insert(3, name("B"));
    assert!(!added, "an id keeps its name");
    let (map, added) = map.insert(4, name("A"));
    assert!(!added, "a name keeps its id");
    let (map, added) = map.insert(3, name("A"));
    assert!(!added);
    let (map, added) = map.insert(9, name(""));
    assert!(added);
    assert_eq!(map.vertex_name(3).as_ref().map(text), Ok("A".to_string()));
    assert_eq!(map.vertex_name(9).as_ref().map(text), Ok("".to_string()));
    assert_eq!(map.vertex_name(4).err(), Some(DagError::LookupFailure { id: 4 }));
    assert_eq!(map.find_id_by_name(b"A"), Ok(Some(3)));
    assert_eq!(map.find_id_by_name(b""), Ok(Some(9)));
    assert_eq!(map.find_id_by_name(b"B"), Ok(None));
    assert!(name("A").same_as(&VertexName::copy_from_slice(b"A")));
    assert!(!name("A").same_as(&name("AA")));
}

#[test]
fn test_counts_of_union_and_intersection() -> Result<()> {
    with_dag(|dag| {
        let abcd = dag.ancestors("D")?;
        let abefg = dag.ancestors("G")?;
        let list = NameSet::Static(StaticSet::from_names(vec![name("C"), name("X"), name("G")]));
        let x = abcd.as_dag().unwrap();
        let y = abefg.as_dag().unwrap();
        let pairs = vec![
            (abcd.union(&abefg), abcd.intersection(&abefg), 4, 5),
            (
                NameSet::combine_dag(SetOp::Or, x, y, false),
                NameSet::combine_dag(SetOp::And, x, y, false),
                4,
                5,
            ),
            (abcd.union(&list), abcd.intersection(&list), 4, 3),
            (list.union(&abefg), list.intersection(&abefg), 3, 5),
        ];
        for (either, both, left, right) in pairs {
            assert_eq!(either.iter()?.len() + both.iter()?.len(), left + right);
            assert_eq!(either.count()? + both.count()?, (left + right) as u64);
        }
        assert_eq!(abcd.union(&abefg).count()?, 7);
        assert_eq!(abcd.intersection(&abefg).count()?, 2);
        assert_eq!(abcd.union(&list).count()?, 6);
        assert_eq!(abcd.intersection(&list).count()?, 1);
        Ok(())
    })
}

#[test]
fn test_walks_of_sets_combined_with_themselves() -> Result<()> {
    with_dag(|dag| {
        let abefg = dag.ancestors("G")?;
        let list = NameSet::Static(StaticSet::from_names(vec![name("C"), name("X"), name("G")]));
        let x = abefg.as_dag().unwrap();
        let general = |op| NameSet::combine_dag(op, x, x, false);
        for set in [abefg.union(&abefg), abefg.intersection(&abefg), general(SetOp::Or), general(SetOp::And)] {
            assert_eq!(texts(&set.iter()?), vec!["G", "F", "E", "B", "A"]);
            assert_eq!(texts(&set.iter_rev()?), vec!["A", "B", "E", "F", "G"]);
        }
        for set in [list.union(&list), list.intersection(&list)] {
            assert_eq!(texts(&set.iter()?), vec!["C", "X", "G"]);
        }
        for set in [abefg.difference(&abefg), general(SetOp::Difference), list.difference(&list)] {
            assert_eq!(texts(&set.iter()?), Vec::<String>::new());
            assert_eq!(set.count()?, 0);
        }
        // a walk that fails, fails alike when the set is united with itself
        let broken = dag.set_of(vec![5, 6, 7, 8]);
        let b = broken.as_dag().unwrap();
        assert_eq!(broken.union(&broken).iter().err(), broken.iter().err());
        assert_eq!(
            NameSet::combine_dag(SetOp::And, b, b, false).iter().err(),
            Some(DagError::LookupFailure { id: 8 })
        );
        Ok(())
    })
}
