use synapse::workbench::{
    char_slice, clipboard_image_extension, command_palette_key_bindings,
    editor_backtick_key_bindings, file_manager_reveal_command, pasted_image_file_name,
    pasted_image_markdown, path_is_inside_macos_app_bundle, png_header_metadata,
    synapse_theme_palette, pasted_image_step, ImageFormat, PastedImageStep, RenderCacheKey,
    TargetPlatform, PASTED_IMAGE_NAME_ATTEMPTS,
};

fn components(value: &str) -> Vec<String> {
    value
        .split('/')
        .filter(|part| !part.is_empty())
        .map(str::to_owned)
        .collect()
}

#[test]
fn component_command_palette_has_native_cross_platform_shortcuts() {
    assert_eq!(command_palette_key_bindings(), ["cmd-k", "ctrl-k"]);
}

#[test]
fn editor_accepts_both_plain_and_option_grave_backtick_input() {
    assert_eq!(editor_backtick_key_bindings(), ["`", "alt-`"]);
}

#[test]
fn packaged_macos_executables_are_detected_as_app_bundle_residents() {
    assert!(path_is_inside_macos_app_bundle(&components(
        "/Applications/Synapse.app/Contents/MacOS/Synapse"
    )));
    assert!(!path_is_inside_macos_app_bundle(&components(
        "target/release/synapse"
    )));
    assert!(!path_is_inside_macos_app_bundle(&components(
        "/Applications/Synapse.app/Contents/Resources/Synapse.icns"
    )));
    assert!(!path_is_inside_macos_app_bundle(&components(
        "/Applications/.app/Contents/MacOS/Synapse"
    )));
    assert!(!path_is_inside_macos_app_bundle(&components("Contents/MacOS/x")));
}

#[test]
fn theme_palette_separates_light_and_dark_surfaces() {
    let light = synapse_theme_palette(false);
    let dark = synapse_theme_palette(true);
    assert_eq!(light.panel, 0xf4f4f2);
    assert_eq!(light.background, 0xfbfbfa);
    assert_eq!(light.tab_inactive, 0xe9e9e6);
    assert_eq!(dark.panel, 0x151515);
    assert_eq!(dark.background, 0x1a1a1a);
    assert_eq!(dark.tab_inactive, 0x0f0f0f);
    assert_eq!(dark.selection, 0xebebe824);
    assert_ne!(dark.background, dark.panel);
    assert_ne!(light.background, dark.background);
}

#[test]
fn png_headers_give_size_and_color_type() {
    let mut header = vec![0x89, b'P', b'N', b'G', b'\r', b'\n', 0x1a, b'\n'];
    header.extend_from_slice(&[0, 0, 0, 13]);
    header.extend_from_slice(b"IHDR");
    header.extend_from_slice(&1024u32.to_be_bytes());
    header.extend_from_slice(&768u32.to_be_bytes());
    header.extend_from_slice(&[8, 2, 0, 0, 0]);
    assert_eq!(png_header_metadata(&header), Some((1024, 768, 2)));
    assert_eq!(png_header_metadata(&header[..20]), None);
    let mut wrong = header.clone();
    wrong[13] = b'X';
    assert_eq!(png_header_metadata(&wrong), None);
    let mut not_png = header.clone();
    not_png[0] = 0;
    assert_eq!(png_header_metadata(&not_png), None);
}

#[test]
fn v3_ac3_reveal_uses_the_native_platform_command() {
    let (program, arguments) =
        file_manager_reveal_command(TargetPlatform::MacOs, "/tmp/note.md", Some("/tmp"), false);
    assert_eq!(program, "open");
    assert_eq!(arguments[0], "-R");
    let (program, arguments) =
        file_manager_reveal_command(TargetPlatform::Windows, "/tmp/note.md", Some("/tmp"), false);
    assert_eq!(program, "explorer");
    assert_eq!(arguments[0], "/select,");
    let (program, arguments) =
        file_manager_reveal_command(TargetPlatform::Other, "/tmp/note.md", Some("/tmp"), false);
    assert_eq!(program, "xdg-open");
    assert_eq!(arguments, ["/tmp"]);
    let (_, arguments) =
        file_manager_reveal_command(TargetPlatform::Other, "/tmp", Some("/"), true);
    assert_eq!(arguments, ["/tmp"]);
}

#[test]
fn pasted_images_get_numbered_names_and_markdown() {
    assert_eq!(clipboard_image_extension(ImageFormat::Jpeg), "jpg");
    assert_eq!(clipboard_image_extension(ImageFormat::Svg), "svg");
    let first = pasted_image_file_name(1726000, 0, "png");
    assert_eq!(first, "pasted-image-1726000.png");
    assert_eq!(
        pasted_image_file_name(1726000, 1, "png"),
        "pasted-image-1726000-1.png"
    );
    assert_eq!(
        pasted_image_markdown(&first),
        "![Pasted image](assets/pasted-image-1726000.png)"
    );
}

#[test]
fn char_slices_count_characters_and_clip() {
    assert_eq!(char_slice("前缀中文后缀", 2, 4), "中文");
    assert_eq!(char_slice("abc", 2, 1), "");
    assert_eq!(char_slice("abc", 1, 10), "bc");
    assert_eq!(char_slice("abc", 5, 9), "");
}

#[test]
fn render_cache_keys_reuse_only_matching_previews() {
    let key = RenderCacheKey {
        vault_root: components("/vault"),
        relative_path: components("diagram.md"),
        revision: 3,
        dark_mode: false,
        source_mode: false,
    };
    let root = components("/vault");
    let note = components("diagram.md");
    assert!(key.matches(&root, &note, 3, false, false));
    assert!(!key.matches(&root, &note, 4, false, false));
    assert!(key.can_reuse_outline(&root, &note, 3));
    assert!(key.can_reuse_image_previews(&root, &note, 3, false));
    assert!(!key.can_reuse_image_previews(&root, &note, 3, true));
    assert!(key.can_reuse_mermaid_previews(&root, &note, 3, false, false));
    assert!(!key.can_reuse_mermaid_previews(&root, &note, 3, true, false));
    assert!(!key.can_reuse_math_previews(&root, &components("other.md"), 3, false, false));
}

#[test]
fn visual_preview_caches_ignore_cursor_and_invalidate_relevant_state() {
    let cache = RenderCacheKey {
        vault_root: components("/vault"),
        relative_path: components("diagram.md"),
        revision: 7,
        dark_mode: true,
        source_mode: false,
    };
    let vault = components("/vault");
    let note = components("diagram.md");

    assert!(cache.can_reuse_mermaid_previews(&vault, &note, 7, true, false));
    assert!(cache.can_reuse_outline(&vault, &note, 7));
    assert!(!cache.can_reuse_outline(&vault, &note, 8));
    assert!(!cache.can_reuse_mermaid_previews(&vault, &note, 8, true, false));
    assert!(!cache.can_reuse_mermaid_previews(&vault, &note, 7, false, false));
    assert!(!cache.can_reuse_mermaid_previews(&vault, &note, 7, true, true));
    assert!(cache.can_reuse_math_previews(&vault, &note, 7, true, false));
    assert!(cache.can_reuse_image_previews(&vault, &note, 7, false));
    assert!(!cache.can_reuse_math_previews(&vault, &note, 8, true, false));
    assert!(cache.matches(&vault, &note, 7, true, false));
}

#[test]
fn pasted_images_refuse_empty_data_and_give_up_after_the_last_name() {
    assert_eq!(pasted_image_step(0, 5, 0, "png"), PastedImageStep::EmptyImage);
    assert_eq!(
        pasted_image_step(3, 5, 0, "png"),
        PastedImageStep::TryName("pasted-image-5.png".to_owned())
    );
    assert_eq!(
        pasted_image_step(3, 5, 2, "png"),
        PastedImageStep::TryName("pasted-image-5-2.png".to_owned())
    );
    assert_eq!(
        pasted_image_step(3, 5, PASTED_IMAGE_NAME_ATTEMPTS - 1, "png"),
        PastedImageStep::TryName(format!("pasted-image-5-{}.png", PASTED_IMAGE_NAME_ATTEMPTS - 1))
    );
    assert_eq!(
        pasted_image_step(3, 5, PASTED_IMAGE_NAME_ATTEMPTS, "png"),
        PastedImageStep::NoFreeName
    );
}
