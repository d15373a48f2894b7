//! The colours of the map.

use crate::snapshot::{Kind, KindModel, ViewNode};
use crate::text::{finishes_with, lower, text_eq, text_finishes_with, to_lower};
use vstd::prelude::*;

verus! {

/// Whether this is an extension of images.
pub open spec fn image_ext(ext: Seq<char>) -> bool {
    ||| ext == "jpg"@
    ||| ext == "jpeg"@
    ||| ext == "png"@
    ||| ext == "gif"@
    ||| ext == "webp"@
    ||| ext == "svg"@
    ||| ext == "bmp"@
    ||| ext == "tif"@
    ||| ext == "tiff"@
    ||| ext == "heic"@
    ||| ext == "raw"@
    ||| ext == "cr2"@
    ||| ext == "nef"@
    ||| ext == "ico"@
    ||| ext == "avif"@
}

/// Whether this is an extension of images.
fn is_image_ext(ext: &str) -> (r: bool)
    ensures
        r == image_ext(ext@),
{
    text_eq(ext, "jpg") || text_eq(ext, "jpeg") || text_eq(ext, "png") || text_eq(ext, "gif") || text_eq(ext, "webp") || text_eq(ext, "svg") || text_eq(ext, "bmp") || text_eq(ext, "tif") || text_eq(ext, "tiff") || text_eq(ext, "heic") || text_eq(ext, "raw") || text_eq(ext, "cr2") || text_eq(ext, "nef") || text_eq(ext, "ico") || text_eq(ext, "avif")
}

/// Whether this is an extension of videos.
pub open spec fn video_ext(ext: Seq<char>) -> bool {
    ||| ext == "mp4"@
    ||| ext == "mkv"@
    ||| ext == "avi"@
    ||| ext == "mov"@
    ||| ext == "webm"@
    ||| ext == "m4v"@
    ||| ext == "wmv"@
    ||| ext == "flv"@
    ||| ext == "mpeg"@
    ||| ext == "mpg"@
    ||| ext == "m2ts"@
    ||| ext == "mts"@
    ||| ext == "vob"@
}

/// Whether this is an extension of videos.
fn is_video_ext(ext: &str) -> (r: bool)
    ensures
        r == video_ext(ext@),
{
    text_eq(ext, "mp4") || text_eq(ext, "mkv") || text_eq(ext, "avi") || text_eq(ext, "mov") || text_eq(ext, "webm") || text_eq(ext, "m4v") || text_eq(ext, "wmv") || text_eq(ext, "flv") || text_eq(ext, "mpeg") || text_eq(ext, "mpg") || text_eq(ext, "m2ts") || text_eq(ext, "mts") || text_eq(ext, "vob")
}

/// Whether this is an extension of audio files.
pub open spec fn audio_ext(ext: Seq<char>) -> bool {
    ||| ext == "mp3"@
    ||| ext == "flac"@
    ||| ext == "wav"@
    ||| ext == "ogg"@
    ||| ext == "aac"@
    ||| ext == "m4a"@
    ||| ext == "wma"@
    ||| ext == "aiff"@
    ||| ext == "opus"@
}

/// Whether this is an extension of audio files.
fn is_audio_ext(ext: &str) -> (r: bool)
    ensures
        r == audio_ext(ext@),
{
    text_eq(ext, "mp3") || text_eq(ext, "flac") || text_eq(ext, "wav") || text_eq(ext, "ogg") || text_eq(ext, "aac") || text_eq(ext, "m4a") || text_eq(ext, "wma") || text_eq(ext, "aiff") || text_eq(ext, "opus")
}

/// Whether this is an extension of archives.
pub open spec fn archive_ext(ext: Seq<char>) -> bool {
    ||| ext == "zip"@
    ||| ext == "tar"@
    ||| ext == "gz"@
    ||| ext == "tgz"@
    ||| ext == "bz2"@
    ||| ext == "xz"@
    ||| ext == "7z"@
    ||| ext == "rar"@
    ||| ext == "zst"@
    ||| ext == "lz4"@
    ||| ext == "iso"@
    ||| ext == "img"@
    ||| ext == "dmg"@
}

/// Whether this is an extension of archives.
fn is_archive_ext(ext: &str) -> (r: bool)
    ensures
        r == archive_ext(ext@),
{
    text_eq(ext, "zip") || text_eq(ext, "tar") || text_eq(ext, "gz") || text_eq(ext, "tgz") || text_eq(ext, "bz2") || text_eq(ext, "xz") || text_eq(ext, "7z") || text_eq(ext, "rar") || text_eq(ext, "zst") || text_eq(ext, "lz4") || text_eq(ext, "iso") || text_eq(ext, "img") || text_eq(ext, "dmg")
}

/// Whether this is an extension of documents.
pub open spec fn document_ext(ext: Seq<char>) -> bool {
    ||| ext == "pdf"@
    ||| ext == "doc"@
    ||| ext == "docx"@
    ||| ext == "odt"@
    ||| ext == "rtf"@
    ||| ext == "txt"@
    ||| ext == "md"@
    ||| ext == "epub"@
    ||| ext == "xls"@
    ||| ext == "xlsx"@
    ||| ext == "ods"@
    ||| ext == "ppt"@
    ||| ext == "pptx"@
    ||| ext == "csv"@
}

/// Whether this is an extension of documents.
fn is_document_ext(ext: &str) -> (r: bool)
    ensures
        r == document_ext(ext@),
{
    text_eq(ext, "pdf") || text_eq(ext, "doc") || text_eq(ext, "docx") || text_eq(ext, "odt") || text_eq(ext, "rtf") || text_eq(ext, "txt") || text_eq(ext, "md") || text_eq(ext, "epub") || text_eq(ext, "xls") || text_eq(ext, "xlsx") || text_eq(ext, "ods") || text_eq(ext, "ppt") || text_eq(ext, "pptx") || text_eq(ext, "csv")
}

/// Whether this is an extension of source and markup files.
pub open spec fn source_ext(ext: Seq<char>) -> bool {
    ||| ext == "rs"@
    ||| ext == "c"@
    ||| ext == "h"@
    ||| ext == "cc"@
    ||| ext == "cpp"@
    ||| ext == "hpp"@
    ||| ext == "js"@
    ||| ext == "ts"@
    ||| ext == "jsx"@
    ||| ext == "tsx"@
    ||| ext == "py"@
    ||| ext == "go"@
    ||| ext == "java"@
    ||| ext == "kt"@
    ||| ext == "swift"@
    ||| ext == "rb"@
    ||| ext == "php"@
    ||| ext == "sh"@
    ||| ext == "bash"@
    ||| ext == "zsh"@
    ||| ext == "lua"@
    ||| ext == "toml"@
    ||| ext == "yaml"@
    ||| ext == "yml"@
    ||| ext == "json"@
    ||| ext == "xml"@
    ||| ext == "html"@
    ||| ext == "css"@
    ||| ext == "scss"@
    ||| ext == "vue"@
    ||| ext == "svelte"@
}

/// Whether this is an extension of source and markup files.
fn is_source_ext(ext: &str) -> (r: bool)
    ensures
        r == source_ext(ext@),
{
    text_eq(ext, "rs") || text_eq(ext, "c") || text_eq(ext, "h") || text_eq(ext, "cc") || text_eq(ext, "cpp") || text_eq(ext, "hpp") || text_eq(ext, "js") || text_eq(ext, "ts") || text_eq(ext, "jsx") || text_eq(ext, "tsx") || text_eq(ext, "py") || text_eq(ext, "go") || text_eq(ext, "java") || text_eq(ext, "kt") || text_eq(ext, "swift") || text_eq(ext, "rb") || text_eq(ext, "php") || text_eq(ext, "sh") || text_eq(ext, "bash") || text_eq(ext, "zsh") || text_eq(ext, "lua") || text_eq(ext, "toml") || text_eq(ext, "yaml") || text_eq(ext, "yml") || text_eq(ext, "json") || text_eq(ext, "xml") || text_eq(ext, "html") || text_eq(ext, "css") || text_eq(ext, "scss") || text_eq(ext, "vue") || text_eq(ext, "svelte")
}

/// Whether this is an extension of fonts.
pub open spec fn font_ext(ext: Seq<char>) -> bool {
    ||| ext == "ttf"@
    ||| ext == "otf"@
    ||| ext == "woff"@
    ||| ext == "woff2"@
}

/// Whether this is an extension of fonts.
fn is_font_ext(ext: &str) -> (r: bool)
    ensures
        r == font_ext(ext@),
{
    text_eq(ext, "ttf") || text_eq(ext, "otf") || text_eq(ext, "woff") || text_eq(ext, "woff2")
}

/// Whether this is an extension of binaries.
pub open spec fn binary_ext(ext: Seq<char>) -> bool {
    ||| ext == "exe"@
    ||| ext == "dll"@
    ||| ext == "so"@
    ||| ext == "o"@
    ||| ext == "a"@
    ||| ext == "dylib"@
    ||| ext == "wasm"@
    ||| ext == "bin"@
    ||| ext == "elf"@
}

/// Whether this is an extension of binaries.
fn is_binary_ext(ext: &str) -> (r: bool)
    ensures
        r == binary_ext(ext@),
{
    text_eq(ext, "exe") || text_eq(ext, "dll") || text_eq(ext, "so") || text_eq(ext, "o") || text_eq(ext, "a") || text_eq(ext, "dylib") || text_eq(ext, "wasm") || text_eq(ext, "bin") || text_eq(ext, "elf")
}

/// Whether this is an extension of databases.
pub open spec fn database_ext(ext: Seq<char>) -> bool {
    ||| ext == "db"@
    ||| ext == "sqlite"@
    ||| ext == "sqlite3"@
    ||| ext == "sql"@
    ||| ext == "mdb"@
}

/// Whether this is an extension of databases.
fn is_database_ext(ext: &str) -> (r: bool)
    ensures
        r == database_ext(ext@),
{
    text_eq(ext, "db") || text_eq(ext, "sqlite") || text_eq(ext, "sqlite3") || text_eq(ext, "sql") || text_eq(ext, "mdb")
}

/// Whether this is an extension of packages.
pub open spec fn package_ext(ext: Seq<char>) -> bool {
    ||| ext == "pacman"@
    ||| ext == "pkg.tar.zst"@
}

/// Whether this is an extension of packages.
fn is_package_ext(ext: &str) -> (r: bool)
    ensures
        r == package_ext(ext@),
{
    text_eq(ext, "pacman") || text_eq(ext, "pkg.tar.zst")
}

/// The colour of a file with this extension, already in lower case. A file
/// without a known extension may still have the name of a package.
pub open spec fn ext_color(ext: Seq<char>, name: Seq<char>) -> (u8, u8, u8) {
    if image_ext(ext) {
        (176, 86, 168)
    } else if video_ext(ext) {
        (196, 64, 72)
    } else if audio_ext(ext) {
        (196, 168, 52)
    } else if archive_ext(ext) {
        (204, 116, 48)
    } else if document_ext(ext) {
        (72, 128, 196)
    } else if source_ext(ext) {
        (64, 160, 112)
    } else if font_ext(ext) {
        (128, 112, 176)
    } else if binary_ext(ext) {
        (140, 148, 156)
    } else if database_ext(ext) {
        (88, 140, 148)
    } else if package_ext(ext) {
        (96, 148, 176)
    } else if finishes_with(name, ".pkg.tar.zst"@) || finishes_with(name, ".pkg.tar.xz"@) {
        (96, 148, 176)
    } else {
        (158, 162, 174)
    }
}

/// The colour of a tile.
pub open spec fn kind_color(kind: KindModel, name: Seq<char>) -> (u8, u8, u8) {
    match kind {
        KindModel::Free => (36, 40, 48),
        KindModel::Overhead => (64, 56, 46),
        KindModel::Scanning => (86, 92, 58),
        KindModel::Other => (92, 96, 108),
        KindModel::Unmounted => (48, 52, 62),
        KindModel::Locked => (72, 42, 48),
        KindModel::Swap => (58, 64, 52),
        KindModel::Directory => (62, 88, 122),
        KindModel::MountPoint { .. } => (48, 148, 168),
        KindModel::File { ext } => ext_color(lower(ext), lower(name)),
    }
}

/// The colour of a file, by its extension and its name in any case.
pub fn rgb_for_ext(ext: &str, name: &str) -> (r: (u8, u8, u8))
    ensures
        r == ext_color(lower(ext@), lower(name@)),
{
    let ext = to_lower(ext);
    let name = to_lower(name);
    let ext = ext.as_str();
    let name = name.as_str();
    if is_image_ext(ext) {
        (176, 86, 168)
    } else if is_video_ext(ext) {
        (196, 64, 72)
    } else if is_audio_ext(ext) {
        (196, 168, 52)
    } else if is_archive_ext(ext) {
        (204, 116, 48)
    } else if is_document_ext(ext) {
        (72, 128, 196)
    } else if is_source_ext(ext) {
        (64, 160, 112)
    } else if is_font_ext(ext) {
        (128, 112, 176)
    } else if is_binary_ext(ext) {
        (140, 148, 156)
    } else if is_database_ext(ext) {
        (88, 140, 148)
    } else if is_package_ext(ext) {
        (96, 148, 176)
    } else if text_finishes_with(name, ".pkg.tar.zst") || text_finishes_with(name, ".pkg.tar.xz") {
        (96, 148, 176)
    } else {
        (158, 162, 174)
    }
}

/// The colour of a tile as red, green and blue. It is part of the library, so
/// that a snapshot has the same colours whatever draws it.
pub fn rgb_for_kind(kind: &Kind, name: &str) -> (r: (u8, u8, u8))
    ensures
        r == kind_color(kind@, name@),
{
    match kind {
        Kind::Free => (36, 40, 48),
        Kind::Overhead => (64, 56, 46),
        Kind::Scanning => (86, 92, 58),
        Kind::Other => (92, 96, 108),
        Kind::Unmounted => (48, 52, 62),
        Kind::Locked => (72, 42, 48),
        Kind::Swap => (58, 64, 52),
        Kind::Directory => (62, 88, 122),
        Kind::MountPoint { .. } => (48, 148, 168),
        Kind::File { ext } => rgb_for_ext(ext.as_str(), name),
    }
}

impl ViewNode {
    /// The colour of the tile.
    pub fn color_rgb(&self) -> (r: (u8, u8, u8))
        ensures
            r == kind_color(self@.kind, self@.name),
    {
        rgb_for_kind(&self.kind, self.name.as_str())
    }
}

} // verus!
