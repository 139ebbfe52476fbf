//! A record-and-enum shaped tree, written out as explicit object
//! construction, rendered through a context.

use handybars::{Context, Object, Value, Variable};

#[test]
fn test() {
    let prop_3 = Value::Object(
        Object::new()
            .with_property("field_1".to_string(), Value::from_u16(30))
            .with_property("field_2".to_string(), Value::text("f32_val"))
            .with_property("field_3".to_string(), Value::text("f33_val"))
            .with_property("field_4".to_string(), Value::text("A")),
    );
    let v = Value::Object(
        Object::new()
            .with_property("prop_0".to_string(), Value::text("p0_val"))
            .with_property("prop_1".to_string(), Value::from_u64(1))
            .with_property("prop_2".to_string(), Value::text("p2_val"))
            .with_property("prop_3".to_string(), prop_3)
            .with_property("prop_4".to_string(), Value::text("B")),
    );
    let c = Context::new().with_define(Variable::single("obj"), v);
    assert_eq!("1", c.render("{{ obj.prop_1 }}").unwrap());
    assert_eq!("A", c.render("{{ obj.prop_3.field_4 }}").unwrap());
    assert_eq!("f33_val", c.render("{{ obj.prop_3.field_3 }}").unwrap());
}
