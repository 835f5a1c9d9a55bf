//! Decisions of the application shell that need no window: key bindings, the theme
//! palette, the app bundle check, the file manager command, pasted image names,
//! the editor render cache keys and where a Markdown image points.

use vstd::prelude::*;

use crate::text::{chars_of, decimal, decimal_of_wide, push_all, push_str, string_of};
use crate::todo_codec::strings_view;
use crate::vault::{has_extension, last_index_of, PathView};

verus! {

/// The key bindings that open the command palette.
pub fn command_palette_key_bindings() -> (keys: [&'static str; 2])
    ensures
        keys[0]@ == "cmd-k"@ && keys[1]@ == "ctrl-k"@,
{
    ["cmd-k", "ctrl-k"]
}

/// The key bindings that type a backtick in the editor.
pub fn editor_backtick_key_bindings() -> (keys: [&'static str; 2])
    ensures
        keys[0]@ == "`"@ && keys[1]@ == "alt-`"@,
{
    ["`", "alt-`"]
}

/// The colors of the Synapse theme: `0xRRGGBB`, and `0xRRGGBBAA` for the translucent
/// `hover`, `active` and `selection`.
#[derive(Clone, Copy, Debug, Eq, PartialEq)]
pub struct SynapseThemePalette {
    pub background: u32,
    pub panel: u32,
    pub sunken: u32,
    pub tab_inactive: u32,
    pub foreground: u32,
    pub muted: u32,
    pub faint: u32,
    pub border: u32,
    pub line_soft: u32,
    pub hover: u32,
    pub active: u32,
    pub selection: u32,
}

/// The dark palette.
pub open spec fn dark_palette() -> SynapseThemePalette {
    SynapseThemePalette {
        background: 0x1a1a1a,
        panel: 0x151515,
        sunken: 0x0f0f0f,
        tab_inactive: 0x0f0f0f,
        foreground: 0xebebe8,
        muted: 0x8f8f8a,
        faint: 0x64645f,
        border: 0x292927,
        line_soft: 0x202020,
        hover: 0xebebe80f,
        active: 0xebebe81a,
        selection: 0xebebe824,
    }
}

/// The light palette.
pub open spec fn light_palette() -> SynapseThemePalette {
    SynapseThemePalette {
        background: 0xfbfbfa,
        panel: 0xf4f4f2,
        sunken: 0xe9e9e6,
        tab_inactive: 0xe9e9e6,
        foreground: 0x191919,
        muted: 0x6e6e6a,
        faint: 0xa3a39e,
        border: 0xe3e3e0,
        line_soft: 0xececea,
        hover: 0x1919190d,
        active: 0x19191917,
        selection: 0x19191924,
    }
}

/// The palette of the dark or the light theme.
pub fn synapse_theme_palette(dark: bool) -> (p: SynapseThemePalette)
    ensures
        p == if dark {
            dark_palette()
        } else {
            light_palette()
        },
{
    if dark {
        SynapseThemePalette {
            background: 0x1a1a1a,
            panel: 0x151515,
            sunken: 0x0f0f0f,
            tab_inactive: 0x0f0f0f,
            foreground: 0xebebe8,
            muted: 0x8f8f8a,
            faint: 0x64645f,
            border: 0x292927,
            line_soft: 0x202020,
            hover: 0xebebe80f,
            active: 0xebebe81a,
            selection: 0xebebe824,
        }
    } else {
        SynapseThemePalette {
            background: 0xfbfbfa,
            panel: 0xf4f4f2,
            sunken: 0xe9e9e6,
            tab_inactive: 0xe9e9e6,
            foreground: 0x191919,
            muted: 0x6e6e6a,
            faint: 0xa3a39e,
            border: 0xe3e3e0,
            line_soft: 0xececea,
            hover: 0x1919190d,
            active: 0x19191917,
            selection: 0x19191924,
        }
    }
}

/// The eight bytes that start every PNG file.
pub open spec fn png_signature() -> Seq<u8> {
    seq![0x89u8, 0x50u8, 0x4eu8, 0x47u8, 0x0du8, 0x0au8, 0x1au8, 0x0au8]
}

/// The big-endian number of the four bytes of `b` from `at`.
pub open spec fn be_u32(b: Seq<u8>, at: int) -> int {
    b[at] * 0x1000000 + b[at + 1] * 0x10000 + b[at + 2] * 0x100 + b[at + 3]
}

/// Width, height and color type from the header of a PNG file: the signature, then
/// an `IHDR` chunk whose data starts with the big-endian width and height; the color
/// type is the byte after the bit depth.
pub open spec fn png_metadata(b: Seq<u8>) -> Option<(int, int, u8)> {
    if b.len() >= 26 && b.take(8) == png_signature() && b.subrange(12, 16) == seq![0x49u8, 0x48u8, 0x44u8, 0x52u8] {
        Some((be_u32(b, 16), be_u32(b, 20), b[25]))
    } else {
        None
    }
}

/// The big-endian number of four bytes.
fn read_be_u32(b: &[u8], at: usize) -> (v: u32)
    requires
        at + 4 <= b@.len(),
    ensures
        v == be_u32(b@, at as int),
{
    let a = b[at] as u32;
    let c = b[at + 1] as u32;
    let d = b[at + 2] as u32;
    let e = b[at + 3] as u32;
    assert(a * 0x1000000 + c * 0x10000 + d * 0x100 + e <= 0xffffffff) by (nonlinear_arith)
        requires
            a <= 255,
            c <= 255,
            d <= 255,
            e <= 255,
    ;
    a * 0x1000000 + c * 0x10000 + d * 0x100 + e
}

/// Width, height and color type of a PNG image, from its header.
pub fn png_header_metadata(bytes: &[u8]) -> (r: Option<(u32, u32, u8)>)
    ensures
        match png_metadata(bytes@) {
            Some((w, h, t)) => r matches Some(x) && x.0 == w && x.1 == h && x.2 == t,
            None => r is None,
        },
{
    if bytes.len() < 26 {
        return None;
    }
    let signature: [u8; 8] = [0x89, 0x50, 0x4e, 0x47, 0x0d, 0x0a, 0x1a, 0x0a];
    let chunk: [u8; 4] = [0x49, 0x48, 0x44, 0x52];
    let mut i: usize = 0;
    while i < 8
        invariant
            i <= 8,
            bytes@.len() >= 26,
            signature@ == png_signature(),
            forall|j: int| 0 <= j < i ==> bytes@[j] == png_signature()[j],
        decreases 8 - i,
    {
        if bytes[i] != signature[i] {
            proof {
                if bytes@.take(8) == png_signature() {
                    assert(bytes@.take(8)[i as int] == bytes@[i as int]);
                }
            }
            return None;
        }
        i += 1;
    }
    while i < 12
        invariant
            8 <= i <= 12,
            bytes@.len() >= 26,
            chunk@ == seq![0x49u8, 0x48u8, 0x44u8, 0x52u8],
            forall|j: int| 0 <= j < 8 ==> bytes@[j] == png_signature()[j],
            forall|j: int| 12 <= j < i + 4 ==> bytes@[j] == chunk@[j - 12],
        decreases 12 - i,
    {
        if bytes[i + 4] != chunk[i - 8] {
            proof {
                if bytes@.subrange(12, 16) == chunk@ {
                    assert(bytes@.subrange(12, 16)[i - 8] == bytes@[i + 4]);
                    assert(chunk@[i - 8] == chunk[i - 8]);
                }
            }
            return None;
        }
        i += 1;
    }
    proof {
        assert(bytes@.take(8) =~= png_signature());
        assert(bytes@.subrange(12, 16) =~= seq![0x49u8, 0x48u8, 0x44u8, 0x52u8]);
    }
    Some((read_be_u32(bytes, 16), read_be_u32(bytes, 20), bytes[25]))
}

/// The name ends with the extension `app`.
pub open spec fn is_app_name(name: Seq<char>) -> bool {
    has_extension(name) && name.skip(last_index_of(name, '.') + 1) == seq!['a', 'p', 'p']
}

/// An executable path lies in `<name>.app/Contents/MacOS/`.
pub open spec fn in_app_bundle(p: PathView) -> bool {
    p.len() >= 4 && p[p.len() - 2] == seq!['M', 'a', 'c', 'O', 'S'] && p[p.len() - 3] == seq![
        'C',
        'o',
        'n',
        't',
        'e',
        'n',
        't',
        's',
    ] && is_app_name(p[p.len() - 4])
}

/// Whether the executable at the path with components `executable` runs from inside a
/// macOS app bundle.
pub fn path_is_inside_macos_app_bundle(executable: &Vec<String>) -> (b: bool)
    ensures
        b == in_app_bundle(strings_view(executable@)),
{
    let n = executable.len();
    proof {
        assert(strings_view(executable@).len() == n);
    }
    if n < 4 {
        return false;
    }
    let macos = chars_of(executable[n - 2].as_str());
    let contents = chars_of(executable[n - 3].as_str());
    let app = chars_of(executable[n - 4].as_str());
    let macos_name = chars_of("MacOS");
    let contents_name = chars_of("Contents");
    let app_ext = chars_of("app");
    let dots = chars_of("..");
    proof {
        reveal_strlit("MacOS");
        reveal_strlit("Contents");
        reveal_strlit("app");
        reveal_strlit("..");
        assert(macos_name@ =~= seq!['M', 'a', 'c', 'O', 'S']);
        assert(contents_name@ =~= seq!['C', 'o', 'n', 't', 'e', 'n', 't', 's']);
        assert(app_ext@ =~= seq!['a', 'p', 'p']);
        assert(dots@ =~= seq!['.', '.']);
        crate::vault::lemma_last_index_of(app@, '.');
    }
    if !crate::text::chars_equal(&macos, &macos_name) || !crate::text::chars_equal(&contents, &contents_name) {
        return false;
    }
    if crate::text::chars_equal(&app, &dots) {
        return false;
    }
    let mut k = app.len();
    proof {
        assert(app@.take(k as int) =~= app@);
    }
    while k > 0 && app[k - 1] != '.'
        invariant
            k <= app.len(),
            last_index_of(app@, '.') == last_index_of(app@.take(k as int), '.'),
        decreases k,
    {
        proof {
            assert(app@.take(k as int).drop_last() =~= app@.take(k - 1));
        }
        k -= 1;
    }
    proof {
        if k > 0 {
            assert(app@.take(k as int).last() == '.');
        } else {
            assert(app@.take(0).len() == 0);
        }
    }
    if k <= 1 {
        return false;
    }
    let ext = crate::text::slice_chars(&app, k, app.len());
    proof {
        assert(ext@ =~= app@.skip(k as int));
    }
    crate::text::chars_equal(&ext, &app_ext)
}

/// The platform the shell runs on.
#[derive(Clone, Copy, Debug, Eq, PartialEq)]
pub enum TargetPlatform {
    MacOs,
    Windows,
    Other,
}

/// The program and arguments that show `path` in the file manager: Finder selects
/// it, Explorer selects it, and elsewhere the folder itself (or the one holding the
/// file) is opened.
pub open spec fn reveal_command(platform: TargetPlatform, path: Seq<char>, parent: Option<Seq<char>>, is_dir: bool) -> (
    Seq<char>,
    Seq<Seq<char>>,
) {
    match platform {
        TargetPlatform::MacOs => ("open"@, seq!["-R"@, path]),
        TargetPlatform::Windows => ("explorer"@, seq!["/select,"@, path]),
        TargetPlatform::Other => (
            "xdg-open"@,
            seq![
                if is_dir {
                    path
                } else {
                    match parent {
                        Some(p) => p,
                        None => path,
                    }
                },
            ],
        ),
    }
}

/// The file manager command that reveals `path`, given its parent folder (if it has
/// one) and whether it is a folder.
pub fn file_manager_reveal_command(platform: TargetPlatform, path: &str, parent: Option<&str>, path_is_dir: bool) -> (r: (
    &'static str,
    Vec<String>,
))
    ensures
        (r.0@, strings_view(r.1@)) == reveal_command(platform, path@, match parent {
            Some(p) => Some(p@),
            None => None,
        }, path_is_dir),
{
    let own = string_of(&chars_of(path));
    match platform {
        TargetPlatform::MacOs => {
            let args = vec![string_of(&chars_of("-R")), own];
            proof {
                assert(strings_view(args@) =~= seq!["-R"@, path@]);
            }
            ("open", args)
        },
        TargetPlatform::Windows => {
            let args = vec![string_of(&chars_of("/select,")), own];
            proof {
                assert(strings_view(args@) =~= seq!["/select,"@, path@]);
            }
            ("explorer", args)
        },
        TargetPlatform::Other => {
            let target = if path_is_dir {
                own
            } else {
                match parent {
                    Some(p) => string_of(&chars_of(p)),
                    None => own,
                }
            };
            let ghost t = target@;
            let args = vec![target];
            proof {
                assert(strings_view(args@) =~= seq![t]);
            }
            ("xdg-open", args)
        },
    }
}

/// The image formats the clipboard hands over.
#[derive(Clone, Copy, Debug, Eq, PartialEq)]
pub enum ImageFormat {
    Png,
    Jpeg,
    Webp,
    Gif,
    Svg,
    Bmp,
    Tiff,
}

/// The file extension of an image format.
pub open spec fn extension_of(format: ImageFormat) -> Seq<char> {
    match format {
        ImageFormat::Png => "png"@,
        ImageFormat::Jpeg => "jpg"@,
        ImageFormat::Webp => "webp"@,
        ImageFormat::Gif => "gif"@,
        ImageFormat::Svg => "svg"@,
        ImageFormat::Bmp => "bmp"@,
        ImageFormat::Tiff => "tiff"@,
    }
}

/// The file extension for a pasted image.
pub fn clipboard_image_extension(format: ImageFormat) -> (s: &'static str)
    ensures
        s@ == extension_of(format),
{
    match format {
        ImageFormat::Png => "png",
        ImageFormat::Jpeg => "jpg",
        ImageFormat::Webp => "webp",
        ImageFormat::Gif => "gif",
        ImageFormat::Svg => "svg",
        ImageFormat::Bmp => "bmp",
        ImageFormat::Tiff => "tiff",
    }
}

/// The file name of a pasted image: `pasted-image-<time>`, then `-<attempt>` from the
/// second attempt on, then the extension.
pub open spec fn pasted_image_name(timestamp: nat, attempt: nat, extension: Seq<char>) -> Seq<char> {
    "pasted-image-"@ + decimal(timestamp) + (if attempt == 0 {
        Seq::empty()
    } else {
        seq!['-'] + decimal(attempt)
    }) + seq!['.'] + extension
}

/// The file name of a pasted image for the given attempt at a free name.
pub fn pasted_image_file_name(timestamp: u128, attempt: u32, extension: &str) -> (name: String)
    ensures
        name@ == pasted_image_name(timestamp as nat, attempt as nat, extension@),
{
    let mut v: Vec<char> = Vec::new();
    push_str(&mut v, "pasted-image-");
    push_all(&mut v, &decimal_of_wide(timestamp));
    if attempt != 0 {
        v.push('-');
        push_all(&mut v, &crate::text::decimal_of(attempt as u64));
    }
    v.push('.');
    push_str(&mut v, extension);
    proof {
        assert(v@ =~= pasted_image_name(timestamp as nat, attempt as nat, extension@));
    }
    string_of(&v)
}

/// How many file names a pasted image tries before giving up.
pub const PASTED_IMAGE_NAME_ATTEMPTS: u32 = 10_000;

/// What saving a pasted image does next.
#[derive(Debug, PartialEq, Eq)]
pub enum PastedImageStep {
    /// The clipboard image holds no bytes: nothing is saved.
    EmptyImage,
    /// Create this file, failing if it exists; when it exists, try the next attempt.
    TryName(String),
    /// Every name tried was taken.
    NoFreeName,
}

/// The step of saving a pasted image of `image_len` bytes at attempt `attempt` (counted
/// from 0) at a free name.
pub fn pasted_image_step(image_len: usize, timestamp: u128, attempt: u32, extension: &str) -> (step:
    PastedImageStep)
    ensures
        image_len == 0 ==> step == PastedImageStep::EmptyImage,
        image_len > 0 && attempt >= PASTED_IMAGE_NAME_ATTEMPTS ==> step == PastedImageStep::NoFreeName,
        image_len > 0 && attempt < PASTED_IMAGE_NAME_ATTEMPTS ==> (step matches PastedImageStep::TryName(
            name,
        ) && name@ == pasted_image_name(timestamp as nat, attempt as nat, extension@)),
{
    if image_len == 0 {
        PastedImageStep::EmptyImage
    } else if attempt >= PASTED_IMAGE_NAME_ATTEMPTS {
        PastedImageStep::NoFreeName
    } else {
        PastedImageStep::TryName(pasted_image_file_name(timestamp, attempt, extension))
    }
}

/// The Markdown that shows a pasted image saved under `assets/` beside the note.
pub fn pasted_image_markdown(file_name: &str) -> (md: String)
    ensures
        md@ == "![Pasted image](assets/"@ + file_name@ + ")"@,
{
    let mut v: Vec<char> = Vec::new();
    push_str(&mut v, "![Pasted image](assets/");
    push_str(&mut v, file_name);
    push_str(&mut v, ")");
    string_of(&v)
}

/// The characters `start..end` of `text` (none when `end <= start`), clipped to the
/// text.
pub open spec fn char_range(text: Seq<char>, start: int, end: int) -> Seq<char> {
    let from = if start < text.len() {
        start
    } else {
        text.len() as int
    };
    let to = if end <= start {
        from
    } else if end < text.len() {
        end
    } else {
        text.len() as int
    };
    text.subrange(from, to)
}

/// The characters `start..end` of `text`.
pub fn char_slice(text: &str, start: usize, end: usize) -> (out: String)
    ensures
        out@ == char_range(text@, start as int, end as int),
{
    let c = chars_of(text);
    let from = if start < c.len() {
        start
    } else {
        c.len()
    };
    let to = if end <= start {
        from
    } else if end < c.len() {
        end
    } else {
        c.len()
    };
    string_of(&crate::text::slice_chars(&c, from, to))
}

/// What the editor's render cache was built for.
#[derive(Debug, Eq, PartialEq)]
pub struct RenderCacheKey {
    pub vault_root: Vec<String>,
    pub relative_path: Vec<String>,
    pub revision: u64,
    pub dark_mode: bool,
    pub source_mode: bool,
}

/// Two paths have the same components.
pub open spec fn same(a: Seq<String>, b: Seq<String>) -> bool {
    strings_view(a) == strings_view(b)
}

impl RenderCacheKey {
    /// The cache holds the rendering of this note, revision and mode.
    pub fn matches(&self, vault_root: &Vec<String>, relative_path: &Vec<String>, revision: u64, dark_mode: bool, source_mode: bool) -> (b: bool)
        ensures
            b == (same(self.vault_root@, vault_root@) && same(self.relative_path@, relative_path@)
                && self.revision == revision && self.dark_mode == dark_mode && self.source_mode == source_mode),
    {
        crate::vault::same_path(&self.vault_root, vault_root) && crate::vault::same_path(&self.relative_path, relative_path)
            && self.revision == revision && self.dark_mode == dark_mode && self.source_mode == source_mode
    }

    /// The diagram previews can be kept: both renderings are previews of this note and
    /// revision in this theme.
    pub fn can_reuse_mermaid_previews(&self, vault_root: &Vec<String>, relative_path: &Vec<String>, revision: u64, dark_mode: bool, source_mode: bool) -> (b: bool)
        ensures
            b == (!source_mode && !self.source_mode && same(self.vault_root@, vault_root@) && same(
                self.relative_path@,
                relative_path@,
            ) && self.revision == revision && self.dark_mode == dark_mode),
    {
        !source_mode && !self.source_mode && crate::vault::same_path(&self.vault_root, vault_root)
            && crate::vault::same_path(&self.relative_path, relative_path) && self.revision == revision
            && self.dark_mode == dark_mode
    }

    /// The outline can be kept: same note and revision.
    pub fn can_reuse_outline(&self, vault_root: &Vec<String>, relative_path: &Vec<String>, revision: u64) -> (b: bool)
        ensures
            b == (same(self.vault_root@, vault_root@) && same(self.relative_path@, relative_path@)
                && self.revision == revision),
    {
        crate::vault::same_path(&self.vault_root, vault_root) && crate::vault::same_path(&self.relative_path, relative_path)
            && self.revision == revision
    }

    /// The formula previews can be kept: both renderings are previews of this note
    /// and revision in this theme.
    pub fn can_reuse_math_previews(&self, vault_root: &Vec<String>, relative_path: &Vec<String>, revision: u64, dark_mode: bool, source_mode: bool) -> (b: bool)
        ensures
            b == (!source_mode && !self.source_mode && same(self.vault_root@, vault_root@) && same(
                self.relative_path@,
                relative_path@,
            ) && self.revision == revision && self.dark_mode == dark_mode),
    {
        !source_mode && !self.source_mode && crate::vault::same_path(&self.vault_root, vault_root)
            && crate::vault::same_path(&self.relative_path, relative_path) && self.revision == revision
            && self.dark_mode == dark_mode
    }

    /// The image previews can be kept: both renderings are previews of this note and
    /// revision, in any theme.
    pub fn can_reuse_image_previews(&self, vault_root: &Vec<String>, relative_path: &Vec<String>, revision: u64, source_mode: bool) -> (b: bool)
        ensures
            b == (!source_mode && !self.source_mode && same(self.vault_root@, vault_root@) && same(
                self.relative_path@,
                relative_path@,
            ) && self.revision == revision),
    {
        !source_mode && !self.source_mode && crate::vault::same_path(&self.vault_root, vault_root)
            && crate::vault::same_path(&self.relative_path, relative_path) && self.revision == revision
    }
}

} // verus!
