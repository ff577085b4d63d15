use iskljucenja::script_mapper::Mapper;

#[test]
fn test_mapper() {
    let mapper = Mapper::new();

    let output = mapper.transoform("simple text");
    assert_eq!(&output, "SIMPLE TEXT");

    let output = mapper.transoform("");
    assert_eq!(&output, "");

    let output =
        mapper.transoform("У служби грађана - Званична презентација Владе Републике Србије");
    assert_eq!(
        &output,
        "U SLUŽBI GRAĐANA - ZVANIČNA PREZENTACIJA VLADE REPUBLIKE SRBIJE"
    );
}

#[test]
fn test_mapper_digraphs() {
    let mapper = Mapper::new();

    let output = mapper.transoform("Љиљана и Џемал у Њујорку");
    assert_eq!(&output, "LJILJANA I DŽEMAL U NJUJORKU");
}

#[test]
fn test_mapper_uppercases_latin_diacritics() {
    let mapper = Mapper::new();

    let output = mapper.transoform("žđčćš 123");
    assert_eq!(&output, "ŽĐČĆŠ 123");
}

#[test]
fn test_mapper_default() {
    let mapper = Mapper::default();

    let output = mapper.transoform("ab");
    assert_eq!(&output, "AB");
}
