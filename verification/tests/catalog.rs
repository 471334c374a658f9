use xirang::catalog::{Catalog, CatalogReader, Fingerprint};
use xirang::codec::Uuid;

fn u(n: u32) -> Uuid {
    let mut b = [0u8; 16];
    b[12..16].copy_from_slice(&n.to_be_bytes());
    Uuid(b)
}

fn fp(size: u64) -> Fingerprint {
    Fingerprint { size, mtime_sec: 1, mtime_nsec: 2 }
}

#[test]
fn roundtrip_and_binary_search_lookup() {
    let mut c = Catalog::default();
    c.upsert("/a.xirang", fp(10), &[u(1), u(3), u(5)]);
    c.upsert("/b.xirang", fp(20), &[u(2), u(4)]);
    let bytes = c.save();

    let r = CatalogReader::open(bytes.clone()).unwrap();
    assert_eq!(r.lookup_all(u(1)).unwrap(), vec!["/a.xirang".to_string()]);
    assert_eq!(r.lookup_all(u(4)).unwrap(), vec!["/b.xirang".to_string()]);
    assert!(r.lookup_all(u(99)).unwrap().is_empty());

    let back = Catalog::load(&bytes).unwrap();
    assert_eq!(back.files().len(), 2);
    assert_eq!(back.lookup(u(3)), vec!["/a.xirang"]);
    assert!(Catalog::is_fresh(&bytes, "/a.xirang", fp(10)));
    assert!(!Catalog::is_fresh(&bytes, "/a.xirang", fp(11)));
}

#[test]
fn same_uuid_in_many_files_is_normal() {
    let mut c = Catalog::default();
    c.upsert("/a.xirang", fp(1), &[u(1), u(7)]);
    c.upsert("/b.xirang", fp(1), &[u(1), u(8)]);
    let mut got = c.lookup(u(1));
    got.sort();
    assert_eq!(got, vec!["/a.xirang", "/b.xirang"]);
    assert_eq!(c.lookup(u(8)), vec!["/b.xirang"]);
    assert_eq!(c.duplicated().len(), 1);
    let bytes = c.save();

    let r = CatalogReader::open(bytes).unwrap();
    assert_eq!(
        r.lookup_all(u(1)).unwrap(),
        vec!["/a.xirang".to_string(), "/b.xirang".to_string()]
    );
}

#[test]
fn version_mismatch_is_empty() {
    let mut c = Catalog::default();
    c.upsert("/a.xirang", fp(1), &[u(1)]);
    let mut data = c.save();
    data[5] = 99;
    assert!(Catalog::load(&data).unwrap().files().is_empty());
    assert!(CatalogReader::open(data).is_err());
}

#[test]
fn upsert_refresh_and_remove() {
    let mut c = Catalog::default();
    c.upsert("/a.xirang", fp(1), &[u(1), u(2)]);
    c.upsert("/a.xirang", fp(2), &[u(1)]);
    assert_eq!(c.files().len(), 1);
    assert_eq!(c.files()[0].uuids.len(), 1);
    c.remove_file("/a.xirang");
    assert!(c.files().is_empty());
}

#[test]
fn a_broken_catalog_is_refused() {
    let mut c = Catalog::default();
    c.upsert("/a.xirang", fp(1), &[u(1)]);
    let bytes = c.save();
    assert!(CatalogReader::open(bytes[..20].to_vec()).is_err());
}

#[test]
fn an_id_twice_in_one_file_is_not_duplicated() {
    let mut c = Catalog::default();
    c.upsert("/a.xirang", fp(1), &[u(1), u(1), u(2)]);
    c.upsert("/b.xirang", fp(1), &[u(2), u(3)]);
    let d = c.duplicated();
    assert_eq!(d.len(), 1);
    assert_eq!(d[0].0, u(2));
    assert_eq!(d[0].1.len(), 2);
}
