use blockfs::structure::Bitmap;
use blockfs::structure::DataBitmap;
use blockfs::structure::InodeBitmap;

#[test]
fn set() {
    let mut bitmap: InodeBitmap = Default::default();
    bitmap.set(8, true).unwrap();
    assert_eq!(bitmap.free_at(8), false);
    bitmap.set(8, false).unwrap();
    assert_eq!(bitmap.free_at(8), true);
    assert_eq!(bitmap.set(2000, true).is_err(), true);
}

#[test]
fn free_at() {
    let mut bitmap: InodeBitmap = Default::default();
    bitmap.inner[0] = 0b00000001;
    bitmap.inner[1] = 0b10001000;
    assert_eq!(bitmap.free_at(0), true);
    assert_eq!(bitmap.free_at(7), false);
    assert_eq!(bitmap.free_at(8), false);
    assert_eq!(bitmap.free_at(9), true);
    assert_eq!(bitmap.free_at(12), false);
}

#[test]
fn find_free() {
    let mut bitmap1: InodeBitmap = Default::default();
    bitmap1.inner[0] = 0b11100001;
    let mut bitmap2: InodeBitmap = Default::default();
    bitmap2.inner[0] = 0b11111111;
    bitmap2.inner[1] = 0b11111110;
    let mut bitmap3: InodeBitmap = Default::default();
    for b in bitmap3.inner.iter_mut() {
        *b = 0b11111111;
    }
    assert_eq!(bitmap1.find_free(), Some(3));
    assert_eq!(bitmap2.find_free(), Some(15));
    assert_eq!(bitmap3.find_free(), None);
}

#[test]
fn find_free_from_scans_forward() {
    let mut bitmap: DataBitmap = Default::default();
    bitmap.set(0, true).unwrap();
    bitmap.set(1, true).unwrap();
    bitmap.set(3, true).unwrap();
    assert_eq!(bitmap.find_free_from(0), Some(2));
    assert_eq!(bitmap.find_free_from(3), Some(4));
    assert_eq!(bitmap.find_free(), Some(2));
}

#[test]
fn out_of_range_reads_free() {
    let bitmap: DataBitmap = Default::default();
    assert_eq!(bitmap.free_at(100_000), true);
}

#[test]
fn out_of_range_set_reports_index() {
    let mut bitmap: DataBitmap = Default::default();
    let err = bitmap.set(2000, true).unwrap_err();
    assert_eq!(err, blockfs::error::FsError::OutOfBoundsBitmap(2000));
    assert_eq!(err.message(), "Out of bounds of bitmap");
}
