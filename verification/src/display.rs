//! Paths as they are shown to a user.
use crate::paths::{
    file_name_of, opt_str, parent_of, path_file_name, path_parent, path_strip_prefix, relative_path,
};
use crate::text::{
    chars_of, law_character_is_replaced_everywhere, replace, replaced, starts_with, string_of,
};
use vstd::prelude::*;
use vstd::utf8::encode_utf8;

verus! {

/// The path without the prefix that marks a verbatim path on Windows.
pub open spec fn cleaned_path(path: Seq<char>) -> Seq<char> {
    if "\\\\?\\"@.is_prefix_of(path) {
        path.skip(4)
    } else {
        path
    }
}

/// The path with forward slashes.
pub open spec fn slashed(path: Seq<char>) -> Seq<char> {
    replaced(path, "\\"@, "/"@)
}

/// A long path, by its name and the name of the directory that holds it.
pub open spec fn short_text(path: Seq<char>, name: Seq<char>) -> Seq<char> {
    match parent_of(path) {
        Some(parent) => match file_name_of(parent) {
            Some(above) => "📁 "@ + above + "/"@ + name,
            None => "📁 "@ + name,
        },
        None => "📁 "@ + name,
    }
}

/// The path from the current directory, if it lies under that directory and is not the directory
/// itself.
pub open spec fn local_path(path: Seq<char>, current: Option<Seq<char>>) -> Option<Seq<char>> {
    match current {
        Some(current) => match relative_path(path, current) {
            Some(relative) => if slashed(relative).len() > 0 {
                Some(slashed(relative))
            } else {
                None
            },
            None => None,
        },
        None => None,
    }
}

/// How a path is shown: by its last two names where it takes more than 50 bytes, from the
/// current directory where it lies under it, and else as it is.
pub open spec fn shown_path(path: Seq<char>, current: Option<Seq<char>>) -> Seq<char> {
    if file_name_of(path) is Some && encode_utf8(cleaned_path(path)).len() > 50 {
        short_text(path, file_name_of(path)->0)
    } else {
        match local_path(path, current) {
            Some(local) => "📁 ./"@ + local,
            None => "📁 "@ + slashed(cleaned_path(path)),
        }
    }
}

/// A path in a more concise form. `current_dir` is the current directory, if it is known.
pub fn beautify_path(path: &str, current_dir: Option<&str>) -> (res: String)
    ensures
        res@ == shown_path(
            path@,
            opt_str(current_dir),
        ),
{
    proof {
        reveal_strlit("\\\\?\\");
        reveal_strlit("\\");
    }
    let cleaned = if starts_with(path, "\\\\?\\") {
        let chars = chars_of(path);
        let rest = string_of(&chars, 4, chars.len());
        assert(rest@ =~= path@.skip(4));
        rest
    } else {
        path.to_owned()
    };
    if let Some(name) = path_file_name(path) {
        if cleaned.as_str().as_bytes().len() > 50 {
            if let Some(parent) = path_parent(path) {
                if let Some(above) = path_file_name(parent.as_str()) {
                    return "📁 ".to_owned().concat(above.as_str()).concat("/").concat(
                        name.as_str(),
                    );
                }
            }
            return "📁 ".to_owned().concat(name.as_str());
        }
    }
    if let Some(dir) = current_dir {
        if let Some(relative) = path_strip_prefix(path, dir) {
            let local = replace(relative.as_str(), "\\", "/");
            if local.as_str().unicode_len() > 0 {
                return "📁 ./".to_owned().concat(local.as_str());
            }
        }
    }
    let normalized = replace(cleaned.as_str(), "\\", "/");
    "📁 ".to_owned().concat(normalized.as_str())
}

/// A path is shown with forward slashes.
proof fn lemma_slashed(path: Seq<char>)
    ensures
        slashed(path) == path.map_values(
            |c: char| if c == '\\' {
                '/'
            } else {
                c
            },
        ),
{
    reveal_strlit("\\");
    reveal_strlit("/");
    assert("\\"@ =~= seq!['\\']);
    assert("/"@ =~= seq!['/']);
    law_character_is_replaced_everywhere(path, '\\', '/');
}

/// A path of more than 50 bytes that ends in a name is shown by that name, with the name of the
/// directory that holds it where that has one, wherever the current directory is. The mark of a
/// verbatim path does not count.
pub proof fn law_long_path_is_shown_by_its_last_names(
    path: Seq<char>,
    current: Option<Seq<char>>,
    name: Seq<char>,
)
    requires
        file_name_of(path) == Some(name),
        encode_utf8(
            if seq!['\\', '\\', '?', '\\'].is_prefix_of(path) {
                path.skip(4)
            } else {
                path
            },
        ).len() > 50,
    ensures
        (parent_of(path) matches Some(parent) && file_name_of(parent) is Some) ==> shown_path(
            path,
            current,
        ) == "📁 "@ + file_name_of(parent_of(path)->0)->0 + "/"@ + name,
        !(parent_of(path) matches Some(parent) && file_name_of(parent) is Some) ==> shown_path(
            path,
            current,
        ) == "📁 "@ + name,
{
    reveal_strlit("\\\\?\\");
    assert("\\\\?\\"@ =~= seq!['\\', '\\', '?', '\\']);
}

/// A path of at most 50 bytes is shown from the current directory where it lies under it, and else
/// as it is, without the mark of a verbatim path; either way with forward slashes.
pub proof fn law_short_path_is_shown_with_slashes(path: Seq<char>, current: Option<Seq<char>>)
    requires
        encode_utf8(
            if seq!['\\', '\\', '?', '\\'].is_prefix_of(path) {
                path.skip(4)
            } else {
                path
            },
        ).len() <= 50,
    ensures
        ({
            let plain = if seq!['\\', '\\', '?', '\\'].is_prefix_of(path) {
                path.skip(4)
            } else {
                path
            };
            let below = current is Some && relative_path(path, current->0) is Some && relative_path(
                path,
                current->0,
            )->0.len() > 0;
            &&& below ==> shown_path(path, current) == "📁 ./"@ + relative_path(
                path,
                current->0,
            )->0.map_values(
                |c: char| if c == '\\' {
                    '/'
                } else {
                    c
                },
            )
            &&& !below ==> shown_path(path, current) == "📁 "@ + plain.map_values(
                |c: char| if c == '\\' {
                    '/'
                } else {
                    c
                },
            )
        }),
{
    reveal_strlit("\\\\?\\");
    assert("\\\\?\\"@ =~= seq!['\\', '\\', '?', '\\']);
    lemma_slashed(cleaned_path(path));
    if let Some(current) = current {
        if let Some(relative) = relative_path(path, current) {
            lemma_slashed(relative);
        }
    }
}

}
