use lazarust::point::Point;

#[test]
fn point_addition() {
    let pos1 = Point::new(2, 3);
    let pos2 = Point::new(0, 5);
    let pos3 = Point::new(-3, 1);
    assert_eq!(Point::new(2, 8), pos1.add(pos2));
    assert_eq!(Point::new(-1, 4), pos1.add(pos3));
}

#[test]
fn point_subtraction() {
    let pos1 = Point::new(2, 3);
    let pos2 = Point::new(0, 5);
    let pos3 = Point::new(-3, 1);
    assert_eq!(Point::new(2, -2), pos1.sub(pos2));
    assert_eq!(Point::new(5, 2), pos1.sub(pos3));
}

#[test]
fn point_mult_by_scalar() {
    let pos = Point::new(2, 3);
    assert_eq!(Point::new(4, 6), pos.mul(2));
    assert_eq!(Point::new(-2, -3), pos.mul(-1));
    assert_eq!(Point::new(0, 0), pos.mul(0));
}

#[test]
fn dot_product() {
    let pos1 = Point::new(2, 3);
    let pos2 = Point::new(0, 5);
    let pos3 = Point::new(-3, 1);
    assert_eq!(15, pos1.dot(pos2));
    assert_eq!(-3, pos1.dot(pos3));
    assert_eq!(5, pos2.dot(pos3));
}

#[test]
fn point_div_by_scalar() {
    let pos = Point::new(2, 3);
    assert_eq!(Point::new(1, 1), pos.div(2));
    assert_eq!(Point::new(-2, -3), pos.div(-1));
}

#[test]
fn checked_div_reports_failures() {
    let pos = Point::new(2, 3);
    assert_eq!(None, pos.checked_div(0));
    assert_eq!(None, Point::new(i32::MIN, 0).checked_div(-1));
    assert_eq!(Some(Point::new(-2, -3)), pos.checked_div(-1));
    assert_eq!(Some(Point::new(1, 1)), pos.checked_div(2));
}

#[test]
fn div_truncates_toward_zero() {
    assert_eq!(Point::new(-1, 1), Point::new(-3, 3).div(2));
    assert_eq!(Point::new(1, -1), Point::new(-3, 3).div(-2));
    assert_eq!(Point::new(0, 0), Point::new(-1, 1).div(2));
}
