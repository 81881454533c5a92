use bpm_object::filter::{BpmObject, BEAT_ITEM, OBJECT_NAME, OFFSET_ITEM, TEMPO_ITEM};

#[test]
fn bpm_object_names() {
    assert_eq!(BpmObject::new(), BpmObject);
    assert_eq!(OBJECT_NAME, "BPMオブジェクト");
    assert_eq!(TEMPO_ITEM, "BPM");
    assert_eq!(BEAT_ITEM, "拍子");
    assert_eq!(OFFSET_ITEM, "オフセット");
}
