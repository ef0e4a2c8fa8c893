use ef19_core::errors::Error;
use ef19_core::kv::KvMap;
use ef19_core::level::ObjectList;
use ef19_core::zip::zip_string;

#[test]
fn object_list_from_text() {
    let list = ObjectList::from_text("kA2,0,kA3,1;1,5,2,10,3,20;1,0,2,1,3,1;1,6,2,1;").unwrap();
    assert_eq!(list.header.get("kA2").unwrap(), "0");
    assert_eq!(list.header.get("kA3").unwrap(), "1");
    // the zero-id record and the record without y are dropped
    assert_eq!(list.objects.len(), 1);
    assert_eq!(list.objects[0].id, 5);
    assert_eq!(list.objects[0].x_pos.ten_thousandths, 100000);
}

#[test]
fn object_list_missing_header() {
    assert!(matches!(ObjectList::from_text(""), Err(Error::MissingObjectHeader)));
    assert!(matches!(ObjectList::from_text(";1,5,2,1,3,1;"), Err(Error::MissingObjectHeader)));
    assert!(matches!(ObjectList::from_text("x;"), Err(Error::MissingObjectHeader)));
}

#[test]
fn object_list_round_trip() {
    let blob = zip_string("kA2,0;1,5,2,10.5,3,20,57,x;1,7,2,0,3,0,19,2;").unwrap();
    let list = ObjectList::from_str(&blob).unwrap();
    assert_eq!(list.objects.len(), 2);
    let again = ObjectList::from_str(&list.string().unwrap()).unwrap();
    assert_eq!(again.header.get("kA2").unwrap(), "0");
    assert_eq!(again.objects.len(), 2);
    assert_eq!(again.objects[0].x_pos.ten_thousandths, 105000);
    assert_eq!(again.objects[0].other_data.get("57").unwrap(), "x");
    assert_eq!(again.objects[1].color, Some(ef19_core::color::Color::Player2));
    let text = again.into_string().unwrap();
    assert!(ObjectList::from_str(&text).is_ok());
}

#[test]
fn object_list_text_form() {
    let mut header = KvMap::new();
    header.insert("kA2".to_string(), "0".to_string());
    let list = ObjectList { header, objects: Vec::new() };
    assert_eq!(list.text(), "kA2,0;");
}

#[test]
fn object_list_bad_blob() {
    assert!(matches!(ObjectList::from_str("%%%"), Err(Error::Base64(_))));
}

#[test]
fn object_list_blob_that_does_not_inflate() {
    assert!(matches!(ObjectList::from_str("aGVsbG8="), Err(Error::Io(_))));
}
