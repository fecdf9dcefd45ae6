use podium::comb::bitmap::Bitmap;

#[test]
fn get_set() {
    let mut bitmap = Bitmap::empty(3);
    assert!(!bitmap.get(0));
    bitmap.set(0, true);
    assert!(bitmap.get(0));
}

#[test]
fn is_empty() {
    let mut bitmap = Bitmap::empty(2);
    assert!(bitmap.is_empty());
    bitmap.set(1, true);
    assert!(!bitmap.is_empty());

    let mut bitmap = Bitmap::full(2);
    assert!(!bitmap.is_empty());
    bitmap.set(0, false);
    assert!(!bitmap.is_empty());
    bitmap.set(1, false);
    assert!(bitmap.is_empty());
}

#[test]
fn from_ordinals() {
    let bitmap = Bitmap::from_ordinals(&vec![1, 3], 4);
    assert_eq!(Bitmap::from_backing(vec![false, true, false, true]), bitmap);
}

#[test]
fn ordinals_empty() {
    let bitmap = Bitmap::empty(3);
    let mut it = bitmap.ordinals();
    assert_eq!(None, it.next());
}

#[test]
fn ordinals_non_empty() {
    let bitmap = Bitmap::from_ordinals(&vec![1, 3], 4);
    let mut it = bitmap.ordinals();
    assert_eq!(Some(1), it.next());
    assert_eq!(Some(3), it.next());
    assert_eq!(None, it.next());
}

#[test]
fn bitmap_size_and_len() {
    let bitmap = Bitmap::from_backing(vec![true, false, true, true]);
    assert_eq!(3, bitmap.size());
    assert_eq!(4, bitmap.len());
    assert_eq!(0, Bitmap::empty(5).size());
    assert_eq!(5, Bitmap::full(5).size());
}

#[test]
fn bitmap_next_occupied() {
    let bitmap = Bitmap::from_backing(vec![false, true, false, true]);
    assert_eq!(Some(1), bitmap.next_occupied(0));
    assert_eq!(Some(1), bitmap.next_occupied(1));
    assert_eq!(Some(3), bitmap.next_occupied(2));
    assert_eq!(None, bitmap.next_occupied(4));
}

#[test]
fn debug() {
    let bitmap = Bitmap::from_backing(vec![false, true, false, true]);
    assert_eq!("Bitmap[1, 3]", format!("Bitmap{}", bitmap.render()));
}

#[test]
fn display() {
    let bitmap = Bitmap::from_backing(vec![false, true, false, true]);
    assert_eq!("[1, 3]", bitmap.render());
}

#[test]
fn render_edges() {
    assert_eq!("[]", Bitmap::empty(3).render());
    assert_eq!("[0, 1, 2]", Bitmap::full(3).render());
    assert_eq!("[12, 345]", Bitmap::from_ordinals(&vec![12, 345], 400).render());
    assert_eq!(vec![1, 3], Bitmap::from_ordinals(&vec![1, 3], 4).to_ordinals());
}
