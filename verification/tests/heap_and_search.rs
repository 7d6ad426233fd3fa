use playground_rs::algebra::modular::Modular;
use playground_rs::algebra::qpow::{qpow_type_check, QuickPow};
use playground_rs::data_structure::binary_heap::BinaryHeap;
use playground_rs::hlist::{Cons, HMap, Nil};
use playground_rs::matrix::Matrix;
use playground_rs::matrix_like::{Array2D, FromArray2DLike, MatrixLike};
use playground_rs::utils::binary_search;
use playground_rs::utils::tag::{Tag, Tagged};

#[test]
fn binary_heap_push_and_pop() {
    let mut heap = BinaryHeap::new();
    heap.push(1);
    assert_eq!(heap.pop(), Some(1));
}

#[test]
fn push_1_to_100() {
    let mut heap = BinaryHeap::new();
    for i in 1..=100 {
        heap.push(i);
    }

    assert_eq!(heap.pop(), Some(100));
}

#[test]
fn heap_pops_from_great_to_small() {
    let mut heap = BinaryHeap::default();
    assert!(heap.is_empty());
    assert_eq!(heap.top(), None);
    for v in [5, 1, 9, 3, 9, 7, 2, 8, 0, 6, 4] {
        heap.push(v);
    }
    assert_eq!(heap.len(), 11);
    assert_eq!(heap.top(), Some(&9));
    let mut out = Vec::new();
    while let Some(v) = heap.pop() {
        out.push(v);
    }
    assert_eq!(out, vec![9, 9, 8, 7, 6, 5, 4, 3, 2, 1, 0]);
    assert_eq!(heap.pop(), None);
    assert!(heap.is_empty());
}

#[test]
fn search() {
    assert_eq!(binary_search(&[1, 2, 3, 4, 5], &3), Ok(2));
}

#[test]
fn search_start() {
    assert_eq!(binary_search(&[2, 3, 3, 4], &3), Ok(1));
}

#[test]
fn search_in_empty_slice() {
    assert_eq!(binary_search(&[], &0), Err(0));
}

#[test]
fn search_less_than_min() {
    assert_eq!(binary_search(&[2, 3, 4], &1), Err(0));
}

#[test]
fn search_greater_than_max() {
    assert_eq!(binary_search(&[1, 2, 3], &4), Err(3));
}

#[test]
fn search_between_two_elements() {
    assert_eq!(binary_search(&[1, 3, 5, 7], &4), Err(2));
    assert_eq!(binary_search(&[1, 3, 5, 7], &7), Ok(3));
    assert_eq!(binary_search(&[3, 3, 3], &3), Ok(0));
}

#[test]
fn modular_sum_and_product() {
    let a = Modular::new(5u64, 7u64);
    let b = Modular::new(4u64, 7u64);
    let sum = a + b;
    assert_eq!(*sum.get(), 2);
    assert_eq!(*sum.modular(), 7);
    let product = a * b;
    assert_eq!(*product.get(), 6);
    assert_eq!(*product.modular(), 7);
    let other = a * Modular::new(4u64, 3u64);
    assert_eq!(*other.get(), 2);
    assert_eq!(*other.modular(), 3);
    assert!(Modular::<u64>::zero().is_zero());
    assert!(!Modular::<u64>::one().is_zero());
}

#[test]
fn modular_power() {
    let power = Modular::new(3u64, 1_000_000_007u64).pow(20);
    assert_eq!(*power.get(), 486_784_380);
    assert_eq!(*power.modular(), 1_000_000_007);
    let power = Modular::new(2u64, 5u64).pow(10);
    assert_eq!(*power.get(), 4);
    let unit = Modular::new(9u64, 5u64).pow(0);
    assert_eq!(*unit.get(), 1);
    assert_eq!(*unit.modular(), 1);
    qpow_type_check(unit);
}

struct Word(&'static str);

impl Tag for Word {
    type Tag = usize;

    fn tag(&self) -> usize {
        self.0.len()
    }
}

#[test]
fn tagged_keeps_the_first_tag() {
    let mut tagged = Tagged::new(Word("four"));
    assert_eq!(*tagged.tag(), 4);
    assert_eq!(tagged.get().0, "four");
    tagged.get_mut().0 = "eleven";
    assert_eq!(tagged.get().0, "eleven");
    assert_eq!(*tagged.tag(), 4);
    let again = Word("two").tagged();
    assert_eq!(*again.tag(), 3);
}

#[test]
fn matrix_elements_by_row_and_column() {
    let matrix = Matrix::from_array([[1, 2, 3], [4, 5, 6]]);
    assert_eq!(*matrix.get(0, 0), 1);
    assert_eq!(*matrix.get(1, 2), 6);
    assert_eq!(matrix.get_opt(0, 2), Some(&3));
    assert_eq!(matrix.get_opt(2, 0), None);
    assert_eq!(matrix.get_opt(0, 3), None);
    let copied = Matrix::copy_from_array(&[[7, 8], [9, 10]]);
    assert_eq!(*copied.get(1, 0), 9);
    let cloned = Matrix::clone_from_array(&[[7, 8], [9, 10]]);
    assert_eq!(*cloned.get(0, 1), 8);
    let inner = Array2D::from_array2d(Array2D([[1u8], [2u8]]));
    let wrapped = Matrix::from_container(inner);
    assert_eq!(*wrapped.get(1, 0), 2);
}

struct Meters(u32);

struct Feet(u32);

impl HMap<Feet> for Meters {
    fn map(self) -> Feet {
        Feet(self.0 * 3)
    }
}

#[test]
fn a_list_maps_element_by_element() {
    let list = Cons { head: Meters(1), tail: Cons { head: Meters(2), tail: Nil } };
    let mapped: Cons<Feet, Cons<Feet, Nil>> = list.map();
    assert_eq!(mapped.head.0, 3);
    assert_eq!(mapped.tail.head.0, 6);
}

#[test]
fn modular_in_place_and_with_plain_numbers() {
    let mut a = Modular::new(5u64, 7u64);
    a.add_assign(Modular::new(4u64, 6u64));
    assert_eq!(*a.get(), 3);
    assert_eq!(*a.modular(), 6);
    a.mul_assign(Modular::new(5u64, 7u64));
    assert_eq!(*a.get(), 1);
    assert_eq!(*a.modular(), 7);
    let b = Modular::new(5u64, 7u64) + 4u64;
    assert_eq!(*b.get(), 2);
    assert_eq!(*b.modular(), 7);
    let c = Modular::new(5u64, 7u64) * 4u64;
    assert_eq!(*c.get(), 6);
    assert_eq!(*c.modular(), 7);
}

#[test]
fn modular_sum_folds_from_the_first() {
    let items = [Modular::new(5u64, 7u64), Modular::new(4u64, 3u64), Modular::new(6u64, 2u64)];
    let total = Modular::sum(&items);
    assert_eq!(*total.get(), 1);
    assert_eq!(*total.modular(), 7);
    let one = Modular::sum(&items[..1]);
    assert_eq!(*one.get(), 5);
    let none = Modular::sum(&[]);
    assert_eq!(*none.get(), 0);
    assert_eq!(*none.modular(), 0);
}

#[test]
fn matrix_sum_and_writing_in_place() {
    let mut a = Matrix::from_array([[1u32, 2], [3, 4]]);
    let b = Matrix::from_array([[10u32, 20], [30, 40]]);
    *a.get_mut(0, 1) = 5;
    assert_eq!(*a.get(0, 1), 5);
    assert!(a.get_mut_opt(2, 0).is_none());
    assert!(a.get_mut_opt(0, 2).is_none());
    *a.get_mut_opt(1, 1).unwrap() = 4;
    assert_eq!(*a.get(0, 0), 1);
    a.add_assign(b);
    assert_eq!(*a.get(0, 0), 11);
    assert_eq!(*a.get(0, 1), 25);
    assert_eq!(*a.get(1, 0), 33);
    assert_eq!(*a.get(1, 1), 44);
    let c = a.add(Matrix::from_array([[1u32, 1], [1, 1]]));
    assert_eq!(*c.get(1, 1), 45);
    assert_eq!(*c.get(0, 0), 12);
    let m = Matrix::from_array([[Modular::new(5u64, 7u64)]]);
    let n = m.add(Matrix::from_array([[Modular::new(4u64, 7u64)]]));
    assert_eq!(*n.get(0, 0).get(), 2);
}

#[test]
fn tagged_values_compare_by_tag() {
    let a = Tagged::new(Word("four"));
    let b = Tagged::new(Word("five"));
    let c = Tagged::new(Word("seven"));
    assert!(a == b);
    assert!(a != c);
    assert!(a < c);
    assert!(c > b);
    assert_eq!(a.partial_cmp(&b), Some(std::cmp::Ordering::Equal));
}
