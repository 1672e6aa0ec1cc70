use standing_relations::context::Context;
use standing_relations::counts::Counts;
use standing_relations::datum::Datum;

#[test]
fn counts_add_and_get() {
    let mut c = Counts::new();
    assert!(c.add(Datum::Int(3), 2).is_ok());
    assert!(c.add(Datum::Int(3), -1).is_ok());
    assert_eq!(c.get(&Datum::Int(3)), 1);
    assert_eq!(c.get(&Datum::Int(4)), 0);
    let ctx = Context::new(7);
    assert_eq!(ctx.id, 7);
}
