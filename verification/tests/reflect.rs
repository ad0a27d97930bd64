//! The JSON reader, and host layouts against shader reflections.
use voxel_engine::gpu::reflect::{check, varyings, Json, JsonError, Mismatch, Param, StageMismatch, Varying, VaryingError};
use voxel_engine::gpu::{compose, debug_view, decode, denoise, exposure, raster, ray, reference, shade, sky, sky_bake, temporal};

/// A number as a double; whole when it has no fraction and is not negative.
fn read(text: &[u8]) -> Option<Option<u64>> {
    let x: f64 = std::str::from_utf8(text).ok()?.parse().ok()?;
    Some(if x >= 0.0 && x.fract() == 0.0 { Some(x as u64) } else { None })
}

#[test]
fn parses_nested_values_and_rejects_garbage() {
    let v = Json::parse(r#"{"a": [1, 2.5, -3e2, true, null, "x\"y"], "b": {}}"#, &read).unwrap();
    let a = v.get("a").unwrap().as_arr();
    assert_eq!(a[0].as_u64(), Some(1));
    match &a[2] {
        Json::Num(n) => {
            assert_eq!(std::str::from_utf8(&n.text).unwrap().parse::<f64>().unwrap(), -300.0);
            assert_eq!(n.whole, None);
        }
        other => panic!("{other:?}"),
    }
    assert_eq!(a[5].as_str(), Some("x\"y"));
    assert!(Json::parse(r#"{"a": 1,}"#, &read).is_err());
    assert!(Json::parse(r#"{"a": 1} x"#, &read).is_err());
    assert!(Json::parse(r#"{"a": 1, "a": 2}"#, &read).is_err());
}

#[test]
fn every_json_error_has_a_text() {
    let e = |t: &str| Json::parse(t, &read).unwrap_err();
    assert_eq!(e("1 x"), JsonError::TrailingData { at: 2 });
    assert_eq!(e("{\"a\" 1}"), JsonError::Expected { byte: b':', at: 5 });
    assert_eq!(e("[1 2]"), JsonError::ExpectedEnd { close: b']', at: 3 });
    assert_eq!(e("{\"a\": 1 2}"), JsonError::ExpectedEnd { close: b'}', at: 8 });
    assert_eq!(e("{1: 2}"), JsonError::ExpectedString { at: 1 });
    assert_eq!(e("nul"), JsonError::Unexpected { at: 0 });
    assert_eq!(e(""), JsonError::Unexpected { at: 0 });
    assert_eq!(e("1-2"), JsonError::BadNumber { at: 0 });
    assert!(matches!(e("{\"a\": 1, \"a\": 2}"), JsonError::DuplicateKey { .. }));
    assert_eq!(e("\"a\\"), JsonError::UnterminatedEscape);
    assert_eq!(e("\"a\\q\""), JsonError::UnsupportedEscape { byte: b'q' });
    assert_eq!(e("\"a"), JsonError::UnterminatedString);
}

#[test]
fn strings_are_unescaped_and_keep_their_text() {
    let v = Json::parse("[\"\\n\\t\\r\\b\\f\\\\\\/\", \"gr\u{fc}n\u{1F600}\"]", &read).unwrap();
    assert_eq!(v.as_arr()[0].as_str(), Some("\n\t\r\u{8}\u{c}\\/"));
    assert_eq!(v.as_arr()[1].as_str(), Some("gr\u{fc}n\u{1F600}"));
    assert_eq!(v.get("a"), None);
    assert_eq!(v.as_u64(), None);
}

type Fields<'a> = &'a [(&'a str, u64, u64)];

/// A reflection's fields.
fn fields(fs: Fields) -> String {
    let all: Vec<String> = fs.iter().map(|(n, o, s)| format!(r#"{{"name":"{n}","binding":{{"kind":"uniform","offset":{o},"size":{s}}}}}"#)).collect();
    format!(r#"{{"kind":"struct","fields":[{}]}}"#, all.join(","))
}

fn descriptor(name: &str, index: u64, element: Fields) -> String {
    let ty = if element.is_empty() { r#"{"kind":"resource"}"#.to_string() } else { format!(r#"{{"kind":"resource","resultType":{}}}"#, fields(element)) };
    format!(r#"{{"name":"{name}","binding":{{"kind":"descriptorTableSlot","index":{index}}},"type":{ty}}}"#)
}

fn constants(name: &str, fs: Fields) -> String {
    format!(r#"{{"name":"{name}","binding":{{"kind":"pushConstantBuffer","index":0}},"type":{{"kind":"constantBuffer","elementType":{}}}}}"#, fields(fs))
}

fn module(params: &[String]) -> String {
    format!(r#"{{"parameters":[{}],"entryPoints":[]}}"#, params.join(","))
}

const EMITTER: Fields = &[("p0_area", 0, 16), ("eu_pdf", 16, 16), ("ev", 32, 16), ("radiance", 48, 16), ("meta", 64, 16)];

const REGION: Fields = &[("quads", 0, 8), ("tri_quad", 8, 8), ("quad_count", 16, 4), ("tri_count", 20, 4)];

#[test]
fn compose_host_layout_matches_the_compiled_module() {
    let json = module(&[
        descriptor("radiance", 0, &[]),
        descriptor("depth_tex", 1, &[]),
        descriptor("material_tex", 2, &[]),
        descriptor("emission", 3, &[]),
        descriptor("partials", 4, &[]),
        constants(
            "params",
            &[("width", 0, 4), ("height", 4, 4), ("flags", 8, 4), ("floor", 12, 4), ("groups_x", 16, 4), ("pad0", 20, 4), ("pad1", 24, 4), ("pad2", 28, 4)],
        ),
    ]);
    check(&json, &compose::host_layout(), &read).unwrap();
    let mut bad = compose::host_layout();
    if let Some(Param::PushConstants { fields, .. }) = bad.last_mut() {
        fields[3].offset += 4;
    }
    assert!(check(&json, &bad, &read).is_err());
}

#[test]
fn exposure_host_layout_matches_the_compiled_module() {
    let json = module(&[
        descriptor("depth_tex", 0, &[]),
        descriptor("material_tex", 1, &[]),
        descriptor("radiance", 2, &[]),
        descriptor("materials", 3, &[("base", 0, 16), ("emissive", 16, 16)]),
        descriptor("sums", 4, &[]),
        constants(
            "params",
            &[("width", 0, 4), ("height", 4, 4), ("stride", 8, 4), ("slot", 12, 4), ("floor", 16, 4), ("flags", 20, 4), ("material_count", 24, 4), ("groups", 28, 4)],
        ),
    ]);
    check(&json, &exposure::host_layout(), &read).unwrap();
    let mut bad = exposure::host_layout();
    if let Some(Param::PushConstants { fields, .. }) = bad.last_mut() {
        fields[4].offset += 4;
    }
    assert!(check(&json, &bad, &read).is_err());
}

#[test]
fn reference_host_layout_matches_the_compiled_module() {
    let json = module(&[
        descriptor("tlas", 0, &[]),
        descriptor("regions", 1, REGION),
        descriptor("albedo", 2, &[]),
        descriptor("acc", 3, &[("sum", 0, 16), ("sum_sq", 16, 16)]),
        descriptor("emitters", 4, EMITTER),
        descriptor("emission", 5, &[]),
        constants(
            "params",
            &[
                ("eye", 0, 16),
                ("forward", 16, 16),
                ("right", 32, 16),
                ("up", 48, 16),
                ("sun_dir", 64, 16),
                ("sun_ground", 80, 16),
                ("width", 96, 4),
                ("height", 100, 4),
                ("frame", 104, 4),
                ("seed", 108, 4),
                ("flags", 112, 4),
                ("max_bounces", 116, 4),
                ("steps", 120, 4),
                ("sun_steps", 124, 4),
            ],
        ),
    ]);
    check(&json, &reference::host_layout(), &read).unwrap();
    let size = |p: &Param| match p {
        Param::PushConstants { fields, .. } => fields.last().map(|f| f.offset + f.size),
        _ => None,
    };
    assert_eq!(size(reference::host_layout().last().unwrap()), Some(128));
    // Negative control: the emitter's `meta` field moved by 4 bytes is refused.
    let mut bad = reference::host_layout();
    for p in &mut bad {
        if let Param::Descriptor { name: "emitters", element, .. } = p {
            element.last_mut().unwrap().offset += 4;
        }
    }
    assert!(check(&json, &bad, &read).is_err());
}

#[test]
fn shade_host_layout_matches_the_compiled_module() {
    let json = module(&[
        descriptor("depth_tex", 0, &[]),
        descriptor("normal_tex", 1, &[]),
        descriptor("material_tex", 2, &[]),
        descriptor("tlas", 3, &[]),
        descriptor("albedo", 4, &[]),
        descriptor("radiance", 5, &[]),
        descriptor("sky_view", 6, &[]),
        descriptor("regions", 7, REGION),
        descriptor("emitters", 8, EMITTER),
        constants(
            "params",
            &[
                ("eye", 0, 16),
                ("forward", 16, 16),
                ("right", 32, 16),
                ("up", 48, 16),
                ("sun_dir", 64, 16),
                ("sun_ground", 80, 16),
                ("width", 96, 4),
                ("height", 100, 4),
                ("frame", 104, 4),
                ("seed", 108, 4),
                ("flags", 112, 4),
                ("pad0", 116, 4),
                ("pad1", 120, 4),
                ("pad2", 124, 4),
            ],
        ),
    ]);
    check(&json, &shade::host_layout(), &read).unwrap();
    let mut bad = shade::host_layout();
    for p in &mut bad {
        if let Param::Descriptor { name: "emitters", element, .. } = p {
            element[3].offset += 4;
        }
    }
    assert!(check(&json, &bad, &read).is_err());
    let mut bad = shade::host_layout();
    for p in &mut bad {
        if let Param::PushConstants { fields, .. } = p {
            fields.last_mut().unwrap().offset += 4;
        }
    }
    assert!(check(&json, &bad, &read).is_err());
}

#[test]
fn every_disagreement_is_reported() {
    let want = vec![
        Param::Descriptor { name: "a", binding: 0, element: Vec::new() },
        Param::Descriptor { name: "b", binding: 1, element: Vec::new() },
        Param::PushConstants { name: "c", fields: Vec::new() },
        Param::Descriptor { name: "d", binding: 2, element: Vec::new() },
    ];
    let json = module(&[descriptor("b", 7, &[]), descriptor("c", 0, &[]), descriptor("d", 2, &[("x", 0, 4)]), descriptor("z", 3, &[])]);
    let got = check(&json, &want, &read).unwrap_err();
    let slot = Some("descriptorTableSlot".to_string());
    assert_eq!(
        got,
        vec![
            Mismatch::NotInShader { name: "a".into() },
            Mismatch::Binding { name: "b".into(), kind: slot.clone(), index: Some(7), want: 1 },
            Mismatch::Kind { name: "c".into(), kind: slot },
            Mismatch::Fields { name: "d".into(), got: vec![("x".into(), 0, 4)], want: Vec::new() },
            Mismatch::Undeclared { name: "z".into() },
        ]
    );
    assert_eq!(check("{", &want, &read).unwrap_err(), vec![Mismatch::NotJson { error: JsonError::ExpectedString { at: 1 } }]);
}

fn push_bytes(ps: &[Param]) -> u64 {
    ps.iter()
        .map(|p| match p {
            Param::PushConstants { fields, .. } => fields.last().map_or(0, |f| f.offset + f.size),
            _ => 0,
        })
        .sum()
}

#[test]
fn push_constants_fit_the_smallest_device() {
    for (ps, want) in [
        (raster::host_layout(), 96),
        (temporal::host_layout(), 128),
        (debug_view::host_layout(), 128),
        (shade::host_layout(), 128),
        (reference::host_layout(), 128),
        (compose::host_layout(), 32),
        (exposure::host_layout(), 32),
    ] {
        assert_eq!(push_bytes(&ps), want);
    }
    for ps in [ray::host_layout(), denoise::host_layout(), sky::host_layout(), sky_bake::host_layout(), decode::host_layout()] {
        assert!(push_bytes(&ps) <= 128);
    }
}

fn stage(params: &[String], entry: &str) -> String {
    format!(r#"{{"parameters":[{}],"entryPoints":[{entry}]}}"#, params.join(","))
}

fn vector(n: u64, scalar: &str) -> String {
    format!(r#"{{"kind":"vector","elementCount":{n},"elementType":{{"kind":"scalar","scalarType":"{scalar}"}}}}"#)
}

#[test]
fn varyings_are_inputs_and_outputs_with_locations() {
    let entry = format!(
        r#"{{"name":"main","parameters":[
            {{"name":"position","binding":{{"kind":"varyingInput","index":0}},"type":{}}},
            {{"name":"id","type":{{"kind":"scalar","scalarType":"uint32"}}}}],
            "result":{{"type":{{"kind":"struct","fields":[
                {{"name":"material","binding":{{"kind":"varyingOutput","index":1}},"type":{{"kind":"scalar","scalarType":"uint32"}}}}]}}}}}}"#,
        vector(4, "float32")
    );
    let (i, o) = varyings(&stage(&[], &entry), &read).unwrap();
    assert_eq!(i, vec![Varying { name: "position".into(), location: 0, scalar: "float32".into(), components: 4 }]);
    assert_eq!(o, vec![Varying { name: "material".into(), location: 1, scalar: "uint32".into(), components: 1 }]);
    assert_eq!(varyings(&stage(&[], ""), &read), Err(VaryingError::EntryPoints(0)));
    assert!(matches!(varyings("x", &read), Err(VaryingError::NotJson(_))));
}

/// The debug view's parameters as a reflection lists them.
fn view_params() -> Vec<String> {
    let mut v: Vec<String> = ["depth_tex", "normal_tex", "material_tex", "surface_tex"].iter().enumerate().map(|(i, n)| descriptor(n, i as u64, &[])).collect();
    v.push(descriptor("materials", 4, &[("base", 0, 16), ("emissive", 16, 16)]));
    for (i, n) in ["regions", "ray_hits", "ray_surfaces", "radiance", "motion"].iter().enumerate() {
        v.push(descriptor(n, 5 + i as u64, &[]));
    }
    let names = ["right", "up", "forward", "eye", "origin", "info", "sun", "light"];
    let fs: Vec<(&str, u64, u64)> = names.iter().enumerate().map(|(i, n)| (*n, 16 * i as u64, 16)).collect();
    v.push(constants("params", &fs));
    v
}

#[test]
fn debug_view_reflection_is_checked_on_both_stages() {
    let vs = stage(&view_params(), r#"{"name":"vs_main","parameters":[]}"#);
    let out = |n| format!(r#"{{"name":"fs_main","result":{{"binding":{{"kind":"varyingOutput","index":0}},"type":{}}}}}"#, vector(n, "float32"));
    let fs = stage(&view_params(), &out(4));
    assert!(debug_view::check_reflection(&vs, &fs, &read).is_ok());
    let bad = debug_view::check_reflection(&vs, &stage(&view_params(), &out(3)), &read).unwrap_err();
    assert_eq!(bad.len(), 1);
    assert!(matches!(bad[0], StageMismatch::Outputs(_)));
    let short: Vec<String> = view_params().into_iter().skip(1).collect();
    assert!(debug_view::check_reflection(&vs, &stage(&short, &out(4)), &read).is_err());
}
