use convmdblog::mapper::parse_md_ref;

#[test]
fn verify_regex_patten() {
    /* case-1 */

    let cap = parse_md_ref("./ABasicDeep.md#整顿");

    assert!(cap.is_some());

    let cap = cap.unwrap();

    assert_eq!(cap.get(0).unwrap().as_str(), "./ABasicDeep.md#整顿");
    assert_eq!(cap.get(1).unwrap().as_str(), "./ABasicDeep.md");
    assert_eq!(cap.get(2).unwrap().as_str(), "#整顿");

    /* case-2 */

    let cap = parse_md_ref("./c_trap.md");

    assert!(cap.is_some());

    let cap = cap.unwrap();

    assert_eq!(cap.len(), 3);
    assert_eq!(cap.get(1).unwrap().as_str(), "./c_trap.md");
    assert!(cap.get(2).is_none());

    /* case-3 */

    let cap = parse_md_ref("ABasicDeep.md#");

    assert!(cap.is_some());

    let cap = cap.unwrap();

    assert_eq!(cap.get(2).unwrap().as_str(), "#");
}
