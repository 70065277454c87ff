use supermd::base16::{render_toml, Scheme, Srgb, Tokens, SLOTS};

fn void_yaml() -> String {
    let mut yaml = String::from("name: \"Void\"\nauthor: \"t\"\nvariant: \"dark\"\npalette:\n");
    for (i, slot) in SLOTS.iter().enumerate() {
        let shade = if i < 8 { i * 4 } else { 128 + i * 4 };
        yaml.push_str(&format!("  {slot}: \"#{shade:02x}{shade:02x}{shade:02x}\"\n"));
    }
    yaml
}

#[test]
fn colour_conversions_round_trip_and_reject_garbage() {
    let c = Srgb::parse("#1a2B3c").unwrap();
    assert_eq!(c, Srgb { r: 0x1a, g: 0x2b, b: 0x3c });
    assert_eq!(c.hex(), "#1a2b3c");
    assert_eq!(Srgb::parse("  ##ffffff ").unwrap().hex(), "#ffffff");
    assert_eq!(Srgb::parse("abc").unwrap_err(), "bad hex colour \"abc\"");
    assert!(Srgb::parse("#12345g").is_err());
    assert!(Srgb::parse("#1234567").is_err());
    assert!(Srgb::parse("#12é45").is_err());
}

#[test]
fn scheme_parsing_reads_comments_quotes_and_rejects_damage() {
    let scheme = Scheme::parse("void", &void_yaml()).expect("parses");
    assert_eq!(scheme.name, "Void");
    assert_eq!(scheme.author, "t");
    assert_eq!(scheme.slug, "void");
    assert!(scheme.dark);
    assert_eq!(scheme.palette[0], Srgb { r: 0, g: 0, b: 0 });
    assert_eq!(scheme.palette[15], Srgb::parse("#bcbcbc").unwrap());
    assert_eq!(scheme.slot("base0F"), scheme.palette[15]);

    assert_eq!(
        Scheme::parse("x", "name: \"X\"\nvariant: \"dark\"\n").unwrap_err(),
        "x: missing base00"
    );
    assert_eq!(
        Scheme::parse("x", &void_yaml().replace("variant: \"dark\"", "variant: \"teal\"")).unwrap_err(),
        "x: bad variant \"teal\""
    );
    assert_eq!(
        Scheme::parse("x", &void_yaml().replacen("name:", "nome:", 1)).unwrap_err(),
        "x: no name"
    );
    assert!(Scheme::parse("x", &void_yaml().replace("\"#000000\"", "\"#00\"")).is_err());
}

#[test]
fn comments_quotes_and_indented_names_are_handled() {
    let mut yaml = String::from(
        "# a scheme\nscheme: \"ignored\"\nname: 'Dusk' # single quotes stay\nauthor: \"A. N. Author\"  # who\nvariant: light\r\npalette:\n  name: \"not the name\"\n",
    );
    for slot in SLOTS.iter() {
        yaml.push_str(&format!("  {slot}: \"#102030\" # Red\n"));
    }
    let scheme = Scheme::parse("dusk", &yaml).expect("parses");
    assert_eq!(scheme.name, "'Dusk'");
    assert_eq!(scheme.author, "A. N. Author");
    assert!(!scheme.dark);
    assert_eq!(scheme.palette[3], Srgb { r: 0x10, g: 0x20, b: 0x30 });
}

fn tokens_of(s: &Scheme) -> Tokens {
    let p = s.palette;
    let derived = Srgb { r: 1, g: 2, b: 3 };
    Tokens {
        bg: derived,
        page_bg: p[0],
        panel_bg: derived,
        floating_bg: derived,
        hover_bg: derived,
        selected_bg: p[2],
        code_bg: p[1],
        border: p[2],
        fg: p[5],
        fg_strong: p[7],
        fg_muted: derived,
        code_fg: p[5],
        accent: p[13],
        link: p[13],
        find_match_bg: derived,
        find_active_bg: derived,
        shadow: derived,
        shadow_alpha: 0x57,
        diff_added_bg: derived,
        diff_added_fg: p[11],
        diff_deleted_bg: derived,
        diff_deleted_fg: p[8],
        syntax: [p[14], p[13], p[10], p[11], p[3], p[9], p[8], p[5], p[8], p[10]],
    }
}

#[test]
fn a_theme_file_tags_each_colour_with_its_slot() {
    let scheme = Scheme::parse("void", &void_yaml()).unwrap();
    let toml = render_toml(&scheme, &tokens_of(&scheme));
    assert!(toml.starts_with("# Generated from base16 by `cargo run --example import_base16`.\n"));
    assert!(toml.contains("# Scheme: Void by t\n"));
    assert!(toml.contains("# assets/base16/void.yaml -- see assets/base16/README.md.\n"));
    assert!(toml.contains("name = \"Void\"\nappearance = \"dark\"\n\n[colors]\n"));
    assert!(toml.contains("\nbg = \"#010203\"                # derived\n"));
    assert!(toml.contains("\npage_bg = \"#000000\"           # base00\n"));
    assert!(toml.contains("\nshadow = \"#01020357\"          # derived, translucent\n"));
    assert!(toml.contains("\n[syntax]\nkeyword = \"#b8b8b8\"           # base0E\n"));
    assert!(toml.ends_with("attribute = \"#a8a8a8\"         # base0A\n"));
}

#[test]
fn every_colour_reads_back_from_its_hex_form() {
    for (r, g, b) in [(0u8, 0u8, 0u8), (255, 255, 255), (0x2e, 0x34, 0x40), (1, 160, 15)] {
        let c = Srgb { r, g, b };
        assert_eq!(Srgb::parse(&c.hex()), Ok(c));
    }
}
