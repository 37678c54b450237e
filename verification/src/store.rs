//! Store-relative names and the paths they stand for.

use vstd::prelude::*;

use crate::text;

verus! {

/// The part before the first hyphen is 32 bytes long.
pub open spec fn has_store_hash(path: Seq<char>) -> bool {
    exists|i: int|
        0 <= i < path.len() && path[i] == '-' && !(#[trigger] path.take(i)).contains('-')
            && text::byte_count(path.take(i)) == 32
}

/// The output path that a name in a derivation document stands for.
pub open spec fn output_path(path: Seq<char>) -> Seq<char> {
    if !path.contains('/') && has_store_hash(path) {
        "/nix/store/"@ + path
    } else {
        path
    }
}

/// The derivation path that a name in a derivation document stands for.
pub open spec fn derivation_path(path: Seq<char>) -> Seq<char> {
    if text::ends(path, ".drv"@) {
        output_path(path)
    } else {
        path
    }
}

/// Reports whether the part before the first hyphen is 32 bytes long.
fn store_hashed(path: &str) -> (result: bool)
    ensures
        result == has_store_hash(path@),
{
    let chars = text::characters(path);
    match text::find(&chars, '-') {
        None => {
            assert(!has_store_hash(path@)) by {
                assert forall|i: int| 0 <= i < path@.len() && path@[i] == '-' implies false by {
                    assert(path@.contains(path@[i]));
                }
            }
            false
        },
        Some(at) => {
            let hash = text::from_characters(&chars, 0, at);
            let size = text::byte_len(hash.as_str());
            proof {
                assert(hash@ =~= path@.take(at as int));
                if has_store_hash(path@) {
                    let i = choose|i: int|
                        0 <= i < path@.len() && path@[i] == '-' && !(#[trigger] path@.take(
                            i,
                        )).contains('-') && text::byte_count(path@.take(i)) == 32;
                    if i < at {
                        assert(path@.take(at as int)[i] == '-');
                    } else if at < i {
                        assert(path@.take(i)[at as int] == '-');
                    }
                    assert(i == at);
                }
            }
            size == 32
        },
    }
}

/// Returns the output path that a name stands for: a store-relative name gets the store directory,
/// everything else stays as it is.
pub fn normalize_output_path(path: String) -> (result: String)
    ensures
        result@ == output_path(path@),
{
    if text::contains_character(path.as_str(), '/') {
        return path;
    }
    if store_hashed(path.as_str()) {
        text::cat2("/nix/store/", path.as_str())
    } else {
        path
    }
}

/// Returns the derivation path that a name stands for: a store-relative derivation name gets the
/// store directory, everything else stays as it is.
pub fn normalize_derivation_path(path: String) -> (result: String)
    ensures
        result@ == derivation_path(path@),
{
    if text::ends_with(path.as_str(), ".drv") {
        normalize_output_path(path)
    } else {
        path
    }
}

/// Normalizing a path again changes nothing.
pub proof fn law_normalization_is_idempotent(path: Seq<char>)
    ensures
        output_path(output_path(path)) == output_path(path),
        derivation_path(derivation_path(path)) == derivation_path(path),
{
    reveal_strlit("/nix/store/");
    let absolute = "/nix/store/"@ + path;
    assert(absolute[0] == '/');
    assert(absolute.contains('/'));
}

/// The text behind the last slash.
pub open spec fn file_name(path: Seq<char>) -> Seq<char>
    decreases path.len(),
{
    if path.len() == 0 || path.last() == '/' {
        Seq::empty()
    } else {
        file_name(path.drop_last()).push(path.last())
    }
}

/// Returns where the file name of `chars` begins.
pub(crate) fn file_name_start(chars: &Vec<char>) -> (result: usize)
    ensures
        result <= chars@.len(),
        chars@.skip(result as int) == file_name(chars@),
{
    let mut i: usize = chars.len();
    let ghost all = chars@;
    proof {
        assert(all.take(all.len() as int) =~= all);
        assert(file_name(all.take(i as int)) + all.skip(i as int) =~= file_name(all));
    }
    while i > 0 && chars[i - 1] != '/'
        invariant
            all == chars@,
            i <= all.len(),
            file_name(all.take(i as int)) + all.skip(i as int) == file_name(all),
        decreases i,
    {
        proof {
            let head = all.take(i as int);
            assert(head.drop_last() =~= all.take(i - 1));
            assert(all.skip(i - 1) =~= seq![all[i - 1]] + all.skip(i as int));
            assert(file_name(head) =~= file_name(all.take(i - 1)).push(all[i - 1]));
            assert(file_name(all.take(i - 1)) + all.skip(i - 1) =~= file_name(head) + all.skip(
                i as int,
            ));
        }
        i = i - 1;
    }
    proof {
        assert(file_name(all.take(i as int)) =~= Seq::empty());
        assert(file_name(all.take(i as int)) + all.skip(i as int) =~= all.skip(i as int));
    }
    i
}

/// A derivation in the store: its file name ends in `.drv` and starts with a hash.
pub open spec fn is_store_derivation(path: Seq<char>) -> bool {
    let name = path.skip("/nix/store/"@.len() as int);
    &&& text::starts(path, "/nix/store/"@)
    &&& !name.contains('/')
    &&& text::ends(name, ".drv"@)
    &&& has_store_hash(name)
}

/// Reports whether `path` is a derivation in the store.
pub fn store_derivation(path: &str) -> (result: bool)
    ensures
        result == is_store_derivation(path@),
{
    proof {
        reveal_strlit("/nix/store/");
    }
    if !text::starts_with(path, "/nix/store/") {
        return false;
    }
    let chars = text::characters(path);
    let name = text::from_characters(&chars, 11, chars.len());
    assert(name@ =~= path@.skip(11));
    !text::contains_character(name.as_str(), '/') && text::ends_with(name.as_str(), ".drv")
        && store_hashed(name.as_str())
}

/// An output in the store: its file name starts with a hash, and the name behind it has 1 to 211
/// bytes.
pub open spec fn is_store_output(path: Seq<char>) -> bool {
    let name = path.skip("/nix/store/"@.len() as int);
    &&& text::starts(path, "/nix/store/"@)
    &&& !name.contains('/')
    &&& has_store_hash(name)
    &&& 33 < text::byte_count(name) <= 244
}

/// Reports whether `path` is an output in the store.
pub fn store_output(path: &str) -> (result: bool)
    ensures
        result == is_store_output(path@),
{
    proof {
        reveal_strlit("/nix/store/");
    }
    if !text::starts_with(path, "/nix/store/") {
        return false;
    }
    let chars = text::characters(path);
    let name = text::from_characters(&chars, 11, chars.len());
    assert(name@ =~= path@.skip(11));
    let size = text::byte_len(name.as_str());
    !text::contains_character(name.as_str(), '/') && store_hashed(name.as_str()) && 33 < size
        && size <= 244
}

/// The name of a derivation in build output: its file name without `.drv` and without the hash.
pub open spec fn build_label(path: Seq<char>) -> Seq<char> {
    let file = file_name(path);
    let name = if text::ends(file, ".drv"@) {
        file.take(file.len() - 4)
    } else {
        file
    };
    if has_store_hash(name) {
        name.skip(first_hyphen(name) + 1)
    } else {
        name
    }
}

/// The position of the first hyphen.
pub open spec fn first_hyphen(name: Seq<char>) -> int {
    choose|i: int| 0 <= i < name.len() && name[i] == '-' && !name.take(i).contains('-')
}

/// Names a derivation the way build output does.
pub fn derivation_build_label(path: &str) -> (result: String)
    ensures
        result@ == build_label(path@),
{
    let chars = text::characters(path);
    let start = file_name_start(&chars);
    let file = text::from_characters(&chars, start, chars.len());
    proof {
        assert(file@ =~= file_name(path@));
        reveal_strlit(".drv");
    }
    let mut name = text::characters(file.as_str());
    if text::ends_with(file.as_str(), ".drv") {
        name.truncate(name.len() - 4);
        assert(name@ =~= file@.take(file@.len() - 4));
    }
    let plain = text::from_characters(&name, 0, name.len());
    assert(plain@ =~= name@);
    if store_hashed(plain.as_str()) {
        if let Some(at) = text::find(&name, '-') {
            proof {
                let i = first_hyphen(name@);
                assert(0 <= at < name@.len() && name@[at as int] == '-' && !name@.take(
                    at as int,
                ).contains('-'));
                if i < at {
                    assert(name@.take(at as int)[i] == '-');
                } else if at < i {
                    assert(name@.take(i)[at as int] == '-');
                }
                assert(name@.subrange(at + 1, name@.len() as int) =~= name@.skip(at + 1));
            }
            return text::from_characters(&name, at + 1, name.len());
        }
        assert(false) by {
            let i = choose|i: int|
                0 <= i < name@.len() && name@[i] == '-' && !(#[trigger] name@.take(i)).contains(
                    '-',
                ) && text::byte_count(name@.take(i)) == 32;
            assert(name@.contains(name@[i]));
        }
    }
    plain
}

/// A store hash: 32 bytes without a hyphen.
pub open spec fn is_hash(hash: Seq<char>) -> bool {
    text::byte_count(hash) == 32 && !hash.contains('-')
}

proof fn lemma_hashed(hash: Seq<char>, name: Seq<char>)
    requires
        !hash.contains('-'),
    ensures
        has_store_hash(hash + "-"@ + name) <==> is_hash(hash),
        first_hyphen(hash + "-"@ + name) == hash.len(),
{
    reveal_strlit("-");
    let whole = hash + "-"@ + name;
    let at = hash.len() as int;
    assert(whole.take(at) =~= hash);
    assert(whole[at] == '-');
    assert forall|i: int| 0 <= i < whole.len() && whole[i] == '-' && !(#[trigger] whole.take(
        i,
    )).contains('-') implies i == at by {
        if i < at {
            assert(hash[i] == '-');
            assert(hash.contains(hash[i]));
        } else if i > at {
            assert(whole.take(i)[at] == '-');
            assert(whole.take(i).contains('-'));
        }
    }
}

/// A store name, a hash with a hyphen and a name behind it, gets the store directory in front,
/// whatever the name is; with a hash of another length it is left alone.
pub proof fn law_store_names_get_the_store_directory(hash: Seq<char>, name: Seq<char>)
    requires
        !hash.contains('-'),
        !hash.contains('/'),
        !name.contains('/'),
    ensures
        is_hash(hash) ==> output_path(hash + "-"@ + name) == "/nix/store/"@ + hash + "-"@ + name,
        !is_hash(hash) ==> output_path(hash + "-"@ + name) == hash + "-"@ + name,
        is_hash(hash) ==> derivation_path(hash + "-"@ + name + ".drv"@) == "/nix/store/"@ + hash
            + "-"@ + name + ".drv"@,
        !is_hash(hash) ==> derivation_path(hash + "-"@ + name + ".drv"@) == hash + "-"@ + name
            + ".drv"@,
{
    reveal_strlit("-");
    reveal_strlit(".drv");
    lemma_hashed(hash, name);
    let whole = hash + "-"@ + name;
    lemma_no_slash(hash, name);
    assert("/nix/store/"@ + whole =~= "/nix/store/"@ + hash + "-"@ + name);
    let longer = name + ".drv"@;
    assert(!longer.contains('/')) by {
        assert forall|i: int| 0 <= i < longer.len() implies longer[i] != '/' by {
            if i < name.len() {
                assert(name.contains(name[i]));
            }
        }
    }
    lemma_hashed(hash, longer);
    lemma_no_slash(hash, longer);
    let drv = hash + "-"@ + longer;
    assert(drv =~= hash + "-"@ + name + ".drv"@);
    assert(drv.skip(drv.len() - 4) =~= ".drv"@);
    assert("/nix/store/"@ + drv =~= "/nix/store/"@ + hash + "-"@ + name + ".drv"@);
}

proof fn lemma_no_slash(hash: Seq<char>, name: Seq<char>)
    requires
        !hash.contains('/'),
        !name.contains('/'),
    ensures
        !(hash + "-"@ + name).contains('/'),
{
    reveal_strlit("-");
    let whole = hash + "-"@ + name;
    assert forall|i: int| 0 <= i < whole.len() implies whole[i] != '/' by {
        if i < hash.len() {
            assert(hash.contains(hash[i]));
        } else if i > hash.len() {
            assert(name.contains(name[i - hash.len() - 1]));
        }
    }
}

/// A path, a name without a hyphen, and as a derivation a name that does not end in `.drv`, are
/// left alone.
pub proof fn law_other_names_are_left_alone(path: Seq<char>)
    ensures
        path.contains('/') ==> output_path(path) == path && derivation_path(path) == path,
        !path.contains('-') ==> output_path(path) == path && derivation_path(path) == path,
        !text::ends(path, ".drv"@) ==> derivation_path(path) == path,
{
    if has_store_hash(path) {
        let i = choose|i: int|
            0 <= i < path.len() && path[i] == '-' && !(#[trigger] path.take(i)).contains('-')
                && text::byte_count(path.take(i)) == 32;
        assert(path.contains(path[i]));
    }
}

/// A path in the store directory is an output if a hash and a hyphen stand in front of a name of 1
/// to 211 bytes, and a derivation if the name ends in `.drv`.
pub proof fn law_store_paths_are_hashed_names(hash: Seq<char>, name: Seq<char>)
    requires
        !hash.contains('-'),
        !hash.contains('/'),
        !name.contains('/'),
    ensures
        is_store_output("/nix/store/"@ + hash + "-"@ + name) <==> is_hash(hash) && 1
            <= text::byte_count(name) <= 211,
        is_store_derivation("/nix/store/"@ + hash + "-"@ + name + ".drv"@) <==> is_hash(hash),
        is_store_derivation("/nix/store/"@ + hash + "-"@ + name) ==> is_hash(hash) && text::ends(
            hash + "-"@ + name,
            ".drv"@,
        ),
{
    reveal_strlit("/nix/store/");
    reveal_strlit("-");
    reveal_strlit(".drv");
    let file = hash + "-"@ + name;
    let path = "/nix/store/"@ + hash + "-"@ + name;
    lemma_hashed(hash, name);
    lemma_no_slash(hash, name);
    assert(path.skip(11) =~= file);
    assert(path.take(11) =~= "/nix/store/"@);
    text::lemma_byte_count_adds(hash + "-"@, name);
    text::lemma_byte_count_adds(hash, "-"@);
    assert(text::byte_count("-"@) == 1) by {
        assert(vstd::utf8::is_ascii_chars("-"@));
        vstd::utf8::is_ascii_chars_encode_utf8("-"@);
    }
    let longer = name + ".drv"@;
    assert(!longer.contains('/')) by {
        assert forall|i: int| 0 <= i < longer.len() implies longer[i] != '/' by {
            if i < name.len() {
                assert(name.contains(name[i]));
            }
        }
    }
    lemma_hashed(hash, longer);
    lemma_no_slash(hash, longer);
    let drv = path + ".drv"@;
    assert(drv.skip(11) =~= hash + "-"@ + longer);
    assert(drv.take(11) =~= "/nix/store/"@);
    let ending = hash + "-"@ + longer;
    assert(ending.skip(ending.len() - 4) =~= ".drv"@);
}

/// Nothing outside the store directory is an output or a derivation in the store, and nothing in a
/// directory below it.
pub proof fn law_store_paths_lie_in_the_store(path: Seq<char>, name: Seq<char>)
    ensures
        is_store_output(path) || is_store_derivation(path) ==> text::starts(path, "/nix/store/"@),
        name.contains('/') ==> !is_store_output("/nix/store/"@ + name) && !is_store_derivation(
            "/nix/store/"@ + name,
        ),
{
    assert(("/nix/store/"@ + name).skip("/nix/store/"@.len() as int) =~= name);
}

/// The file name of a path is what stands behind its last slash.
pub proof fn law_file_names_stand_behind_the_last_slash(directory: Seq<char>, name: Seq<char>)
    requires
        !name.contains('/'),
    ensures
        file_name(directory + "/"@ + name) == name,
        file_name(name) == name,
    decreases name.len(),
{
    reveal_strlit("/");
    let path = directory + "/"@ + name;
    if name.len() == 0 {
        assert(path.last() == '/');
        assert(file_name(path) =~= name);
        assert(file_name(name) =~= name);
    } else {
        let front = name.drop_last();
        assert(name.contains(name.last()));
        assert forall|i: int| 0 <= i < front.len() implies front[i] != '/' by {
            assert(name.contains(name[i]));
        }
        law_file_names_stand_behind_the_last_slash(directory, front);
        assert(path.drop_last() =~= directory + "/"@ + front);
        assert(path.last() == name.last());
        assert(file_name(path) =~= name);
        assert(file_name(name) =~= name);
    }
}

/// A derivation is named in build output by what stands between its hash and `.drv`; where no hash
/// stands in front, by its file name without `.drv`.
pub proof fn law_build_labels_name_the_derivation(
    directory: Seq<char>,
    hash: Seq<char>,
    name: Seq<char>,
)
    requires
        !hash.contains('-'),
        !hash.contains('/'),
        !name.contains('/'),
    ensures
        build_label(directory + "/"@ + hash + "-"@ + name + ".drv"@) == (if is_hash(hash) {
            name
        } else {
            hash + "-"@ + name
        }),
        build_label(directory + "/"@ + hash + ".drv"@) == hash,
{
    reveal_strlit(".drv");
    reveal_strlit("-");
    let stem = hash + "-"@ + name;
    lemma_hashed(hash, name);
    lemma_no_slash(hash, name);
    lemma_with_ending(directory, stem);
    assert(directory + "/"@ + hash + "-"@ + name + ".drv"@ =~= directory + "/"@ + (stem
        + ".drv"@));
    assert(stem.skip(hash.len() as int + 1) =~= name);
    lemma_with_ending(directory, hash);
    assert(directory + "/"@ + hash + ".drv"@ =~= directory + "/"@ + (hash + ".drv"@));
    if has_store_hash(hash) {
        let i = choose|i: int|
            0 <= i < hash.len() && hash[i] == '-' && !(#[trigger] hash.take(i)).contains('-')
                && text::byte_count(hash.take(i)) == 32;
        assert(hash.contains(hash[i]));
    }
}

/// The file name of a derivation is its stem with `.drv` behind it.
pub proof fn lemma_with_ending(directory: Seq<char>, stem: Seq<char>)
    requires
        !stem.contains('/'),
    ensures
        file_name(directory + "/"@ + (stem + ".drv"@)) == stem + ".drv"@,
        text::ends(stem + ".drv"@, ".drv"@),
        (stem + ".drv"@).take((stem + ".drv"@).len() - 4) == stem,
        ".drv"@.len() == 4,
{
    reveal_strlit(".drv");
    let file = stem + ".drv"@;
    assert(!file.contains('/')) by {
        assert forall|i: int| 0 <= i < file.len() implies file[i] != '/' by {
            if i < stem.len() {
                assert(stem.contains(stem[i]));
            }
        }
    }
    law_file_names_stand_behind_the_last_slash(directory, file);
    assert(file.skip(file.len() - 4) =~= ".drv"@);
    assert(file.take(file.len() - 4) =~= stem);
}

} // verus!
