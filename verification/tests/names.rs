use gmt_fem::codegen::{Function, MatchArms, Name, Names};

#[test]
fn variant_turns_snake_case_into_pascal_case() {
    assert_eq!(Name(String::from("OSS_M1_lcl_6F")).variant(), "OSSM1Lcl6F");
    assert_eq!(
        Name(String::from("OSS_AzDrive_Torque")).variant(),
        "OSSAzDriveTorque"
    );
    assert_eq!(Name(String::from("mount")).variant(), "Mount");
    assert_eq!(Name(String::from("a_b_c")).variant(), "ABC");
}

#[test]
fn enum_variant_renders_the_declaration() {
    let text = Name(String::from("OSS_M1_lcl_6F")).enum_variant();
    assert_eq!(
        text,
        "\n        #[derive(Debug, ::gmt_dos_clients::interface::UID)]\n        pub enum OSSM1Lcl6F {}\n        "
    );
}

#[test]
fn impl_enum_variant_renders_the_lookup() {
    let text = Name(String::from("a_b")).impl_enum_variant_for_io("Inputs");
    assert_eq!(
        text,
        "\n        impl FemIo<AB> for Vec<Option<Inputs>> {\n            fn position(&self) -> Option<usize>{\n                self.iter().filter_map(|x| x.as_ref())\n                        .position(|x| if let Inputs::AB(_) = x {true} else {false})\n            }\n        }\n        "
    );
}

#[test]
fn function_builder_fills_the_optional_parts() {
    let names = Names(vec![Name(String::from("a_b"))]);
    let f = Function::new(
        String::from("pub"),
        String::from("len"),
        String::from("&self"),
        MatchArms::Same(String::from("io.len()")),
        String::from("Inputs"),
        &names,
    );
    assert!(f.args.is_none());
    assert!(f.fn_return.is_none());
    assert!(f.fn_where.is_none());
    let f = f
        .fn_return("usize")
        .args("pred: F")
        .fn_where("F: Fn(&IOData) -> Option<T> + Copy");
    assert_eq!(f.fn_return.as_deref(), Some("usize"));
    assert_eq!(f.args.as_deref(), Some("pred: F"));
    assert_eq!(
        f.fn_where.as_deref(),
        Some("F: Fn(&IOData) -> Option<T> + Copy")
    );
    assert_eq!(f.vis, "pub");
    assert_eq!(f.name, "len");
    assert_eq!(f.variants.len(), 1);
}
