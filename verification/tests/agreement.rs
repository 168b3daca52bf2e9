use circular_list::{HandleA, HandleB, ListA, ListB, NodeA, NodeB};

/// One step of a script, and what it shows.
#[derive(Debug, PartialEq)]
enum Seen {
    Tour(Vec<i64>),
    Len(usize),
    NewId(usize),
    At(usize, i64),
    Cut(i64, usize),
    Added(usize),
}

fn run_a(data: Vec<i64>, script: &[(u8, usize)]) -> Vec<Seen> {
    let (mut list, mut node): (ListA<i64>, HandleA) = NodeA::init(data).unwrap();
    let mut seen = Vec::new();
    for &(op, arg) in script {
        match op {
            0 => seen.push(Seen::Tour(NodeA::tour(&list, &node))),
            1 => seen.push(Seen::Len(NodeA::len(&list, &node))),
            2 => seen.push(Seen::NewId(NodeA::new_id(&list, &node))),
            3 => {
                node = NodeA::step(&list, &node, arg);
                let here = list.get(&node).unwrap();
                seen.push(Seen::At(here.i, here.data));
            }
            4 => {
                let (datum, after) = NodeA::cut(&mut list, &node).unwrap();
                node = after;
                seen.push(Seen::Cut(datum, list.get(&node).unwrap().i));
            }
            _ => {
                node = NodeA::add(&mut list, &node, arg as i64 * 100, None);
                seen.push(Seen::Added(list.get(&node).unwrap().i));
            }
        }
    }
    seen.push(Seen::Tour(NodeA::tour(&list, &node)));
    seen
}

fn run_b(data: Vec<i64>, script: &[(u8, usize)]) -> Vec<Seen> {
    let (mut list, mut node): (ListB<i64>, HandleB) = NodeB::init(data).unwrap();
    let mut seen = Vec::new();
    for &(op, arg) in script {
        match op {
            0 => seen.push(Seen::Tour(NodeB::tour(&list, &node))),
            1 => seen.push(Seen::Len(NodeB::len(&list, &node))),
            2 => seen.push(Seen::NewId(NodeB::new_id(&list, &node))),
            3 => {
                node = NodeB::step(&list, &node, arg);
                let here = list.get(&node).unwrap();
                seen.push(Seen::At(here.i, here.data));
            }
            4 => {
                let (datum, after) = NodeB::cut(&mut list, &node).unwrap();
                node = after;
                seen.push(Seen::Cut(datum, list.get(&node).unwrap().i));
            }
            _ => {
                node = NodeB::add(&mut list, &node, arg as i64 * 100, None);
                seen.push(Seen::Added(list.get(&node).unwrap().i));
            }
        }
    }
    seen.push(Seen::Tour(NodeB::tour(&list, &node)));
    NodeB::clean(&mut list, &node);
    assert!(list.get(&node).is_none());
    seen
}

#[test]
fn both_kinds_show_the_same_on_a_fixed_script() {
    let script = [(3, 10), (4, 0), (5, 0), (0, 0), (1, 0), (2, 0)];
    let a = run_a((0..20).collect(), &script);
    let b = run_b((0..20).collect(), &script);
    assert_eq!(a, b);
    let tour: Vec<i64> = vec![vec![0], (12..20).collect(), (0..10).collect(), vec![11]].concat();
    assert_eq!(
        a,
        vec![
            Seen::At(10, 10),
            Seen::Cut(10, 11),
            Seen::Added(10),
            Seen::Tour(tour.clone()),
            Seen::Len(20),
            Seen::NewId(20),
            Seen::Tour(tour),
        ]
    );
}

#[test]
fn both_kinds_show_the_same_on_many_scripts() {
    let mut state: u64 = 0x9e3779b97f4a7c15;
    for round in 0..200usize {
        let size = round % 9 + 1;
        let mut script = Vec::new();
        for _ in 0..60 {
            state = state.wrapping_mul(6364136223846793005).wrapping_add(1442695040888963407);
            let op = ((state >> 33) % 6) as u8;
            let arg = ((state >> 40) % 50) as usize;
            script.push((op, arg));
        }
        let data: Vec<i64> = (0..size as i64).map(|x| x * 3 - 4).collect();
        assert_eq!(run_a(data.clone(), &script), run_b(data, &script));
    }
}

#[test]
fn hundred_steps_cuts_and_adds() {
    let (mut list, head) = NodeA::init((0..1000).collect::<Vec<i32>>()).unwrap();
    let mut node = head;
    for _ in 0..100 {
        node = NodeA::step(&list, &node, 1);
    }
    assert_eq!(list.get(&node).unwrap().data, 100);
    for _ in 0..100 {
        node = NodeA::cut(&mut list, &node).unwrap().1;
    }
    assert_eq!(list.get(&node).unwrap().data, 200);
    assert_eq!(NodeA::len(&list, &node), 900);
    for k in 0..100 {
        node = NodeA::add(&mut list, &node, k, None);
        assert_eq!(list.get(&node).unwrap().i, 100 + k as usize);
    }
    assert_eq!(NodeA::len(&list, &node), 1000);
    assert_eq!(NodeA::new_id(&list, &node), 1000);
}
