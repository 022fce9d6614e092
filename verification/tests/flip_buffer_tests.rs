use testdrop::{Item, TestDrop};
use vec_collections::flip_buffer::{FlipBuffer, InPlaceVecBuilder, demo};

fn flip_everything_dropped<'a, F>(td: &'a TestDrop, n: usize, f: F)
where
    F: Fn(Vec<Item<'a>>, Vec<Item<'a>>) -> FlipBuffer<Item<'a>>,
{
    let mut a: Vec<Item> = Vec::new();
    let mut b: Vec<Item> = Vec::new();
    let mut ids: Vec<usize> = Vec::new();
    for _ in 0..n {
        let (id, item) = td.new_item();
        a.push(item);
        ids.push(id);
    }
    for _ in 0..n {
        let (id, item) = td.new_item();
        b.push(item);
        ids.push(id);
    }
    let fb = f(a, b);
    std::mem::drop(fb);
    for id in ids {
        td.assert_drop(id);
    }
}

fn builder_everything_dropped<'a, F>(td: &'a TestDrop, n: usize, f: F)
where
    F: Fn(Vec<Item<'a>>, Vec<Item<'a>>) -> InPlaceVecBuilder<Item<'a>>,
{
    let mut a: Vec<Item> = Vec::new();
    let mut b: Vec<Item> = Vec::new();
    let mut ids: Vec<usize> = Vec::new();
    for _ in 0..n {
        let (id, item) = td.new_item();
        a.push(item);
        ids.push(id);
    }
    for _ in 0..n {
        let (id, item) = td.new_item();
        b.push(item);
        ids.push(id);
    }
    let fb = f(a, b);
    std::mem::drop(fb);
    for id in ids {
        td.assert_drop(id);
    }
}

#[test]
fn lib_drop_just_source() {
    flip_everything_dropped(&TestDrop::new(), 10, |a, _| a.into())
}

#[test]
fn lib_target_push_gap() {
    flip_everything_dropped(&TestDrop::new(), 10, |a, b| {
        let mut res: FlipBuffer<Item> = a.into();
        for x in b.into_iter() {
            res.target_push(x, 100);
        }
        res
    })
}

#[test]
fn lib_source_move_some() {
    flip_everything_dropped(&TestDrop::new(), 10, |a, _| {
        let mut res: FlipBuffer<Item> = a.into();
        res.take(3);
        res
    })
}

#[test]
fn lib_source_move_all() {
    flip_everything_dropped(&TestDrop::new(), 10, |a, _| {
        let mut res: FlipBuffer<Item> = a.into();
        res.take(10);
        res
    })
}

#[test]
fn lib_source_drop_some() {
    flip_everything_dropped(&TestDrop::new(), 10, |a, _| {
        let mut res: FlipBuffer<Item> = a.into();
        res.skip(3);
        res
    })
}

#[test]
fn lib_source_drop_all() {
    flip_everything_dropped(&TestDrop::new(), 10, |a, _| {
        let mut res: FlipBuffer<Item> = a.into();
        res.skip(10);
        res
    })
}

#[test]
fn lib_source_pop_some() {
    flip_everything_dropped(&TestDrop::new(), 10, |a, _| {
        let mut res: FlipBuffer<Item> = a.into();
        res.pop_front();
        res.pop_front();
        res.pop_front();
        res
    })
}

#[test]
fn mod_drop_just_source() {
    builder_everything_dropped(&TestDrop::new(), 10, |a, _| a.into())
}

#[test]
fn mod_target_push_gap() {
    builder_everything_dropped(&TestDrop::new(), 10, |a, b| {
        let mut res: InPlaceVecBuilder<Item> = a.into();
        for x in b.into_iter() {
            res.push(x, 100);
        }
        res
    })
}

#[test]
fn mod_source_move_some() {
    builder_everything_dropped(&TestDrop::new(), 10, |a, _| {
        let mut res: InPlaceVecBuilder<Item> = a.into();
        res.take(3);
        res
    })
}

#[test]
fn mod_source_move_all() {
    builder_everything_dropped(&TestDrop::new(), 10, |a, _| {
        let mut res: InPlaceVecBuilder<Item> = a.into();
        res.take(10);
        res
    })
}

#[test]
fn mod_source_drop_some() {
    builder_everything_dropped(&TestDrop::new(), 10, |a, _| {
        let mut res: InPlaceVecBuilder<Item> = a.into();
        res.skip(3);
        res
    })
}

#[test]
fn mod_source_drop_all() {
    builder_everything_dropped(&TestDrop::new(), 10, |a, _| {
        let mut res: InPlaceVecBuilder<Item> = a.into();
        res.skip(10);
        res
    })
}

#[test]
fn mod_source_pop_some() {
    builder_everything_dropped(&TestDrop::new(), 10, |a, _| {
        let mut res: InPlaceVecBuilder<Item> = a.into();
        res.pop_front();
        res.pop_front();
        res.pop_front();
        res
    })
}

#[test]
fn builder() {
    assert_eq!(demo(), vec![2, 4, 6]);
}

#[test]
fn builder_take_and_skip() {
    let mut b: InPlaceVecBuilder<i32> = vec![1, 2, 3, 4, 5].into();
    b.take(2);
    b.skip(1);
    assert_eq!(b.target_slice(), &[1, 2]);
    assert_eq!(b.source_slice(), &[4, 5]);
    assert_eq!(b.pop_front(), Some(4));
    b.push(9, 0);
    assert_eq!(b.into_vec(), vec![1, 2, 9]);
}

#[test]
fn flip_buffer_take_more_than_source() {
    let mut b: FlipBuffer<i32> = vec![1, 2].into();
    b.take(10);
    assert_eq!(b.target_slice(), &[1, 2]);
    assert!(b.source_slice().is_empty());
    assert_eq!(b.pop_front(), None);
    b.target_push(3, 4);
    assert_eq!(b.into_vec(), vec![1, 2, 3]);
}
