//! The list of installed sound packs: display names and their order.
use crate::infrastructure::audio::SoundPackLoader;
use crate::infrastructure::json::{json_string_field, read_json_string_field};
use crate::infrastructure::text_order::{
    lemma_text_le_reflexive, lemma_text_le_total, lemma_text_le_transitive, text_le,
    text_less_or_equal,
};
use vstd::prelude::*;

verus! {

/// Directory name and display name of each pack, as texts.
pub open spec fn pack_views(packs: Seq<(String, String)>) -> Seq<(Seq<char>, Seq<char>)> {
    packs.map_values(|pack: (String, String)| (pack.0@, pack.1@))
}

/// Display names never decrease along the list.
pub open spec fn sorted_by_display_name(packs: Seq<(Seq<char>, Seq<char>)>) -> bool {
    forall|i: int, j: int|
        #![trigger packs[i], packs[j]]
        0 <= i < j < packs.len() ==> text_le(packs[i].1, packs[j].1)
}

/// `order` lists each index below `n` exactly once.
pub open spec fn is_index_permutation(order: Seq<int>, n: int) -> bool {
    &&& order.len() == n
    &&& forall|i: int| 0 <= i < n ==> 0 <= #[trigger] order[i] < n
    &&& forall|i: int, j: int| 0 <= i < j < n ==> #[trigger] order[i] != #[trigger] order[j]
}

/// `sorted` is `packs` rearranged by `order` (entry `i` is `packs[order[i]]`),
/// ordered by display name, with packs of equal display name in their
/// original relative order.
pub open spec fn is_stable_sort_by_display_name(
    sorted: Seq<(Seq<char>, Seq<char>)>,
    packs: Seq<(Seq<char>, Seq<char>)>,
    order: Seq<int>,
) -> bool {
    &&& sorted.len() == packs.len()
    &&& is_index_permutation(order, packs.len() as int)
    &&& forall|i: int| 0 <= i < sorted.len() ==> #[trigger] sorted[i] == packs[order[i]]
    &&& forall|i: int, j: int|
        #![trigger sorted[i], sorted[j]]
        0 <= i < j < sorted.len() && sorted[i].1 == sorted[j].1 ==> order[i] < order[j]
    &&& sorted_by_display_name(sorted)
}

/// Inserting the next pack after every pack whose display name comes no
/// later than its own keeps the list a stable sort of the packs seen so far.
proof fn lemma_insert_keeps_stable_sort(
    sorted: Seq<(Seq<char>, Seq<char>)>,
    packs: Seq<(Seq<char>, Seq<char>)>,
    order: Seq<int>,
    pos: int,
)
    requires
        packs.len() > 0,
        is_stable_sort_by_display_name(sorted, packs.drop_last(), order),
        0 <= pos <= sorted.len(),
        forall|m: int| 0 <= m < pos ==> text_le(#[trigger] sorted[m].1, packs.last().1),
        pos < sorted.len() ==> !text_le(sorted[pos].1, packs.last().1),
    ensures
        is_stable_sort_by_display_name(
            sorted.insert(pos, packs.last()),
            packs,
            order.insert(pos, packs.len() - 1),
        ),
{
    let k = packs.len() - 1;
    let item = packs.last();
    let s2 = sorted.insert(pos, item);
    let o2 = order.insert(pos, k);
    let before = packs.drop_last();
    assert forall|m: int| pos <= m < sorted.len() implies !text_le(
        #[trigger] sorted[m].1,
        item.1,
    ) by {
        if m > pos && text_le(sorted[m].1, item.1) {
            assert(text_le(sorted[pos].1, sorted[m].1));
            lemma_text_le_transitive(sorted[pos].1, sorted[m].1, item.1);
        }
    }
    assert forall|i: int| 0 <= i < s2.len() implies #[trigger] s2[i] == packs[o2[i]] by {
        if i < pos {
            assert(s2[i] == sorted[i]);
            assert(o2[i] == order[i]);
            assert(before[order[i]] == packs[order[i]]);
        } else if i > pos {
            assert(s2[i] == sorted[i - 1]);
            assert(o2[i] == order[i - 1]);
            assert(before[order[i - 1]] == packs[order[i - 1]]);
        }
    }
    assert forall|i: int| 0 <= i < packs.len() implies 0 <= #[trigger] o2[i] < packs.len() by {
        if i < pos {
            assert(o2[i] == order[i]);
        } else if i > pos {
            assert(o2[i] == order[i - 1]);
        }
    }
    assert forall|i: int, j: int| 0 <= i < j < packs.len() implies #[trigger] o2[i]
        != #[trigger] o2[j] by {
        if i != pos && j != pos {
            let a = if i < pos {
                i
            } else {
                i - 1
            };
            let b = if j < pos {
                j
            } else {
                j - 1
            };
            assert(o2[i] == order[a]);
            assert(o2[j] == order[b]);
            assert(order[a] != order[b]);
        } else if i == pos {
            assert(o2[j] == order[j - 1]);
            assert(order[j - 1] < k);
        } else {
            assert(o2[i] == order[i]);
            assert(order[i] < k);
        }
    }
    assert forall|i: int, j: int|
        #![trigger s2[i], s2[j]]
        0 <= i < j < s2.len() implies text_le(s2[i].1, s2[j].1) && (s2[i].1 == s2[j].1 ==> o2[i]
            < o2[j]) by {
        if i < pos && j < pos {
            assert(s2[i] == sorted[i] && s2[j] == sorted[j]);
            assert(o2[i] == order[i] && o2[j] == order[j]);
        } else if i < pos && j == pos {
            assert(s2[i] == sorted[i]);
            assert(o2[i] == order[i]);
            assert(order[i] < k);
        } else if i < pos && j > pos {
            assert(s2[i] == sorted[i] && s2[j] == sorted[j - 1]);
            assert(o2[i] == order[i] && o2[j] == order[j - 1]);
            assert(text_le(sorted[i].1, sorted[j - 1].1));
        } else if i == pos {
            assert(s2[j] == sorted[j - 1]);
            assert(!text_le(sorted[j - 1].1, item.1));
            lemma_text_le_total(item.1, sorted[j - 1].1);
            if s2[i].1 == s2[j].1 {
                lemma_text_le_reflexive(item.1);
            }
        } else {
            assert(s2[i] == sorted[i - 1] && s2[j] == sorted[j - 1]);
            assert(o2[i] == order[i - 1] && o2[j] == order[j - 1]);
            assert(text_le(sorted[i - 1].1, sorted[j - 1].1));
        }
    }
}

/// A sound directory named by the environment is used whenever it exists;
/// otherwise the first existing allowed base is used.
pub proof fn lemma_environment_dir_preferred(env_dir: Seq<char>, usable: Seq<bool>)
    requires
        usable.len() == sound_dir_candidates_of(Some(env_dir)).len(),
    ensures
        sound_dir_candidates_of(Some(env_dir))[0] == env_dir,
        usable[0] ==> first_usable(usable) == Some(0int),
        !usable[0] ==> first_usable(usable) == match first_usable(usable.drop_first()) {
            Some(i) => Some(i + 1),
            None => None,
        },
{
    lemma_first_usable(usable);
    lemma_first_usable(usable.drop_first());
    match first_usable(usable) {
        Some(i) => {
            if !usable[0] {
                assert(usable.drop_first()[i - 1] == usable[i]);
                assert forall|j: int| 0 <= j < i - 1 implies !usable.drop_first()[j] by {
                    assert(usable.drop_first()[j] == usable[j + 1]);
                }
                match first_usable(usable.drop_first()) {
                    Some(f) => {
                        assert(usable[f + 1] == usable.drop_first()[f]);
                    },
                    None => {},
                }
            }
        },
        None => {
            match first_usable(usable.drop_first()) {
                Some(f) => {
                    assert(usable[f + 1] == usable.drop_first()[f]);
                },
                None => {},
            }
        },
    }
}

impl SoundPackLoader {
    /// The packs ordered by display name; packs with equal display names
    /// keep their relative order.
    pub fn sort_by_display_name(packs: Vec<(String, String)>) -> (sorted: Vec<(String, String)>)
        ensures
            exists|order: Seq<int>|
                is_stable_sort_by_display_name(pack_views(sorted@), pack_views(packs@), order),
    {
        let ghost all = pack_views(packs@);
        let ghost n: int = packs@.len() as int;
        let mut rest = packs;
        let mut sorted: Vec<(String, String)> = Vec::new();
        let ghost mut order: Seq<int> = Seq::empty();
        let ghost mut k: int = 0;
        assert(is_stable_sort_by_display_name(pack_views(sorted@), all.take(0), order));
        while rest.len() > 0
            invariant
                n == all.len(),
                0 <= k <= n,
                k + rest@.len() == n,
                forall|i: int| 0 <= i < rest@.len() ==> (#[trigger] rest@[i].0@, rest@[i].1@) == all[k + i],
                is_stable_sort_by_display_name(pack_views(sorted@), all.take(k), order),
            decreases rest@.len(),
        {
            let ghost old_rest = rest@;
            let item = rest.remove(0);
            assert((item.0@, item.1@) == all[k]);
            let ghost current = pack_views(sorted@);
            let mut pos: usize = 0;
            let mut searching = true;
            while searching
                invariant
                    current == pack_views(sorted@),
                    pos <= sorted@.len(),
                    forall|m: int| 0 <= m < pos ==> text_le(#[trigger] current[m].1, item.1@),
                    !searching ==> pos == sorted@.len() || !text_le(current[pos as int].1, item.1@),
                decreases sorted@.len() - pos + (if searching {
                    1int
                } else {
                    0int
                }),
            {
                if pos < sorted.len() && text_less_or_equal(sorted[pos].1.as_str(), item.1.as_str()) {
                    pos = pos + 1;
                } else {
                    searching = false;
                }
            }
            let ghost item_view = (item.0@, item.1@);
            sorted.insert(pos, item);
            proof {
                assert(all.take(k + 1).drop_last() =~= all.take(k));
                assert(all.take(k + 1).last() == item_view);
                lemma_insert_keeps_stable_sort(current, all.take(k + 1), order, pos as int);
                assert(pack_views(sorted@) =~= current.insert(pos as int, item_view));
                order = order.insert(pos as int, k);
                k = k + 1;
                assert forall|i: int| 0 <= i < rest@.len() implies (#[trigger] rest@[i].0@, rest@[i].1@) == all[k + i] by {
                    assert(rest@[i] == old_rest[i + 1]);
                }
            }
        }
        assert(all.take(n) =~= all);
        sorted
    }
}

/// The key of a pack's display name in its description.
pub open spec fn name_key() -> Seq<char> {
    seq!['n', 'a', 'm', 'e']
}

/// The display name of the pack in directory `dir_name`: the `name` text of
/// its description when that reads as one, the directory name otherwise.
pub open spec fn display_name_of(dir_name: Seq<char>, config_json: Option<Seq<u8>>) -> Seq<char> {
    match config_json {
        Some(bytes) => match json_string_field(bytes, name_key()) {
            Some(name) => name,
            None => dir_name,
        },
        None => dir_name,
    }
}


/// When the description's `name` field reads as a text, the display name is
/// exactly that text, whole; otherwise it is the directory name.
pub proof fn lemma_display_name_is_name_field(dir_name: Seq<char>, config_json: Option<Seq<u8>>)
    ensures
        config_json is Some && json_string_field(config_json->0, name_key()) is Some
            ==> display_name_of(dir_name, config_json) == json_string_field(
            config_json->0,
            name_key(),
        )->0,
        config_json is Some && json_string_field(config_json->0, name_key()) is None
            ==> display_name_of(dir_name, config_json) == dir_name,
        config_json is None ==> display_name_of(dir_name, config_json) == dir_name,
{
}

pub open spec fn option_bytes_view(bytes: Option<Vec<u8>>) -> Option<Seq<u8>> {
    match bytes {
        Some(b) => Some(b@),
        None => None,
    }
}

/// Each pack directory with its display name, in the order found.
pub open spec fn named_packs(entries: Seq<(String, Option<Vec<u8>>)>) -> Seq<(Seq<char>, Seq<char>)> {
    Seq::new(
        entries.len(),
        |i: int| (entries[i].0@, display_name_of(entries[i].0@, option_bytes_view(entries[i].1))),
    )
}

/// The sound directory names that may hold packs, in order of preference.
pub open spec fn allowed_sound_bases() -> Seq<Seq<char>> {
    seq![
        seq!['s', 'r', 'c', '/', 'a', 's', 's', 'e', 't', 's', '/', 's', 'o', 'u', 'n', 'd', 's'],
        seq!['a', 's', 's', 'e', 't', 's', '/', 's', 'o', 'u', 'n', 'd', 's'],
        seq![
            '/', 'u', 's', 'r', '/', 's', 'h', 'a', 'r', 'e', '/', 'h', 'i', 'b', 'i', 'k', 'i',
            '/', 's', 'o', 'u', 'n', 'd', 's',
        ],
        seq![
            '/', 'u', 's', 'r', '/', 'l', 'o', 'c', 'a', 'l', '/', 's', 'h', 'a', 'r', 'e', '/',
            'h', 'i', 'b', 'i', 'k', 'i', '/', 's', 'o', 'u', 'n', 'd', 's',
        ],
    ]
}

/// The directory used when no candidate is an existing directory.
pub open spec fn fallback_sound_dir() -> Seq<char> {
    seq!['a', 's', 's', 'e', 't', 's', '/', 's', 'o', 'u', 'n', 'd', 's']
}

/// Directories tried for sound packs, in order: the one named by the
/// environment, if any, then the allowed bases.
pub open spec fn sound_dir_candidates_of(env_dir: Option<Seq<char>>) -> Seq<Seq<char>> {
    match env_dir {
        Some(dir) => seq![dir] + allowed_sound_bases(),
        None => allowed_sound_bases(),
    }
}

/// Index of the first usable candidate, if any.
pub open spec fn first_usable(usable: Seq<bool>) -> Option<int>
    decreases usable.len(),
{
    if usable.len() == 0 {
        None
    } else {
        match first_usable(usable.drop_last()) {
            Some(i) => Some(i),
            None => if usable.last() {
                Some(usable.len() - 1)
            } else {
                None
            },
        }
    }
}

/// `first_usable` finds the first `true`, and finds one whenever there is one.
pub proof fn lemma_first_usable(usable: Seq<bool>)
    ensures
        match first_usable(usable) {
            Some(i) => 0 <= i < usable.len() && usable[i] && forall|j: int|
                0 <= j < i ==> !usable[j],
            None => forall|j: int| 0 <= j < usable.len() ==> !usable[j],
        },
    decreases usable.len(),
{
    if usable.len() > 0 {
        lemma_first_usable(usable.drop_last());
        assert forall|j: int| 0 <= j < usable.len() - 1 implies usable.drop_last()[j] == usable[j] by {}
    }
}

fn owned_text(text: &str) -> (owned: String)
    ensures
        owned@ == text@,
{
    text.to_owned()
}

impl SoundPackLoader {
    /// The display name given the `name` text read from the pack's
    /// description (if one was read): that text, else the directory name.
    pub fn display_name_or_dir(dir_name: &str, name_field: Option<String>) -> (display: String)
        ensures
            display@ == match name_field {
                Some(name) => name@,
                None => dir_name@,
            },
    {
        match name_field {
            Some(name) => name,
            None => owned_text(dir_name),
        }
    }

    /// The display name of the pack in directory `dir_name`, given the bytes
    /// of its description file when that could be read.
    pub fn pack_display_name(dir_name: &str, config_json: Option<&[u8]>) -> (display: String)
        ensures
            display@ == display_name_of(
                dir_name@,
                match config_json {
                    Some(b) => Some(b@),
                    None => None,
                },
            ),
            config_json is Some && json_string_field(config_json->0@, name_key()) is Some
                ==> display@ == json_string_field(config_json->0@, name_key())->0,
            config_json is Some && json_string_field(config_json->0@, name_key()) is None
                ==> display@ == dir_name@,
            config_json is None ==> display@ == dir_name@,
    {
        match config_json {
            Some(bytes) => {
                proof {
                    reveal_strlit("name");
                }
                let key = "name";
                assert(key@ =~= name_key());
                let field = read_json_string_field(bytes, key);
                Self::display_name_or_dir(dir_name, field)
            },
            None => owned_text(dir_name),
        }
    }

    /// The installed packs as (directory name, display name), sorted by
    /// display name; `entries` holds each pack directory with the bytes of
    /// its description file, when that could be read.
    pub fn build_pack_list(entries: Vec<(String, Option<Vec<u8>>)>) -> (packs: Vec<(String, String)>)
        ensures
            exists|order: Seq<int>|
                is_stable_sort_by_display_name(pack_views(packs@), named_packs(entries@), order),
    {
        let mut named: Vec<(String, String)> = Vec::new();
        let n = entries.len();
        let mut i: usize = 0;
        while i < n
            invariant
                n == entries@.len(),
                i <= n,
                pack_views(named@) == named_packs(entries@).take(i as int),
            decreases n - i,
        {
            let dir_name = entries[i].0.clone();
            let display = match &entries[i].1 {
                Some(bytes) => Self::pack_display_name(dir_name.as_str(), Some(bytes.as_slice())),
                None => Self::pack_display_name(dir_name.as_str(), None),
            };
            assert(dir_name@ == entries@[i as int].0@);
            assert(display@ == display_name_of(
                entries@[i as int].0@,
                option_bytes_view(entries@[i as int].1),
            ));
            let ghost before = pack_views(named@);
            let ghost entry_view = (dir_name@, display@);
            named.push((dir_name, display));
            assert(pack_views(named@) =~= before.push(entry_view));
            assert(named_packs(entries@)[i as int] == entry_view);
            assert(named_packs(entries@).take(i + 1) =~= named_packs(entries@).take(i as int).push(
                entry_view,
            ));
            i = i + 1;
        }
        assert(named_packs(entries@).take(n as int) =~= named_packs(entries@));
        Self::sort_by_display_name(named)
    }

    /// The candidate directories for sound packs: `env_dir` (from the
    /// environment) first when given, then the allowed bases.
    pub fn sound_dir_candidates(env_dir: Option<String>) -> (candidates: Vec<String>)
        ensures
            candidates.deep_view() == sound_dir_candidates_of(
                match env_dir {
                    Some(d) => Some(d@),
                    None => None,
                },
            ),
    {
        let mut candidates: Vec<String> = Vec::new();
        match env_dir {
            Some(dir) => candidates.push(dir),
            None => {},
        }
        proof {
            reveal_strlit("src/assets/sounds");
            reveal_strlit("assets/sounds");
            reveal_strlit("/usr/share/hibiki/sounds");
            reveal_strlit("/usr/local/share/hibiki/sounds");
        }
        let ghost lead = candidates.deep_view();
        let b0 = owned_text("src/assets/sounds");
        assert(b0@ =~= allowed_sound_bases()[0]);
        let b1 = owned_text("assets/sounds");
        assert(b1@ =~= allowed_sound_bases()[1]);
        let b2 = owned_text("/usr/share/hibiki/sounds");
        assert(b2@ =~= allowed_sound_bases()[2]);
        let b3 = owned_text("/usr/local/share/hibiki/sounds");
        assert(b3@ =~= allowed_sound_bases()[3]);
        candidates.push(b0);
        candidates.push(b1);
        candidates.push(b2);
        candidates.push(b3);
        assert(candidates.deep_view() =~= lead + allowed_sound_bases());
        candidates
    }

    /// The first candidate marked usable (an existing directory), or the
    /// fallback directory when there is none.
    pub fn choose_sound_pack_dir(candidates: &Vec<String>, usable: &Vec<bool>) -> (dir: String)
        requires
            candidates@.len() == usable@.len(),
        ensures
            dir@ == match first_usable(usable@) {
                Some(i) => candidates@[i]@,
                None => fallback_sound_dir(),
            },
    {
        proof {
            lemma_first_usable(usable@);
        }
        let n = candidates.len();
        let mut i: usize = 0;
        while i < n
            invariant
                n == candidates@.len(),
                n == usable@.len(),
                i <= n,
                forall|j: int| 0 <= j < i ==> !usable@[j],
                match first_usable(usable@) {
                    Some(f) => 0 <= f < usable@.len() && usable@[f] && forall|j: int|
                        0 <= j < f ==> !usable@[j],
                    None => forall|j: int| 0 <= j < usable@.len() ==> !usable@[j],
                },
            decreases n - i,
        {
            if usable[i] {
                return candidates[i].clone();
            }
            i = i + 1;
        }
        proof {
            reveal_strlit("assets/sounds");
        }
        let fallback = owned_text("assets/sounds");
        assert(fallback@ =~= fallback_sound_dir());
        fallback
    }
}

} // verus!
