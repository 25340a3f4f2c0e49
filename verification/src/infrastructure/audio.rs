//! Decoded sound buffers, playback sources over them, and sound pack loading.
use crate::domain::audio::{KeyDefine, KeyDefineType, MechvibesConfig};
use crate::infrastructure::paths::{
    components, contains_parent_dir, has_parent_dir, has_root, is_absolute, join_paths, joined,
    kept_pieces, lead_components, lemma_empty_path_components, lemma_join_extends_base,
    parent_dir, path_starts_with, segments, starts_with_path,
};
use std::sync::Arc;
use vstd::hash_map::StringHashMap;
use vstd::prelude::*;

verus! {

/// Decoded samples of one sound file, interleaved by channel.
#[derive(Clone, Debug)]
pub struct AudioBuffer {
    pub samples: Arc<Vec<i16>>,
    pub sample_rate: u32,
    pub channels: u16,
}

/// `Arc::clone`: a second handle on the same samples; what it points to is unchanged.
#[verifier::external_body]
fn share_samples(samples: &Arc<Vec<i16>>) -> (shared: Arc<Vec<i16>>)
    ensures
        shared@ == samples@,
{
    Arc::clone(samples)
}

/// Interleaved sample offset of `ms` milliseconds: whole frames (rounded
/// down) times the channel count.
pub open spec fn offset_for_ms(ms: u64, sample_rate: u32, channels: u16) -> int {
    ((ms * sample_rate) / 1000) * channels
}

/// The offsets of a slice are computed without overflow.
pub open spec fn slice_fits(start_ms: u64, duration_ms: u64, sample_rate: u32, channels: u16) -> bool {
    &&& start_ms * sample_rate <= u64::MAX
    &&& duration_ms * sample_rate <= u64::MAX
    &&& (start_ms * sample_rate) / 1000 <= usize::MAX
    &&& (duration_ms * sample_rate) / 1000 <= usize::MAX
    &&& offset_for_ms(start_ms, sample_rate, channels) + offset_for_ms(
        duration_ms,
        sample_rate,
        channels,
    ) <= usize::MAX
}

pub open spec fn min_int(a: int, b: int) -> int {
    if a <= b {
        a
    } else {
        b
    }
}

/// Interleaved sample offset of `ms` milliseconds, in executable form.
fn offset_of(ms: u64, sample_rate: u32, channels: u16) -> (offset: usize)
    requires
        ms * sample_rate <= u64::MAX,
        (ms * sample_rate) / 1000 <= usize::MAX,
        offset_for_ms(ms, sample_rate, channels) <= usize::MAX,
    ensures
        offset == offset_for_ms(ms, sample_rate, channels),
{
    let scaled: u64 = ms * (sample_rate as u64);
    let frames: usize = (scaled / 1000) as usize;
    frames * (channels as usize)
}

impl AudioBuffer {
    /// A source that plays the whole buffer.
    pub fn to_source(&self) -> (source: AudioBufferSource)
        ensures
            source.samples() == self.samples@,
            source.position() == 0,
            source.end_position() == self.samples@.len(),
            source.rate() == self.sample_rate,
            source.channel_count() == self.channels,
            source.pending() == self.samples@,
    {
        let end_pos = self.samples.len();
        let source = AudioBufferSource {
            buffer: share_samples(&self.samples),
            pos: 0,
            sample_rate: self.sample_rate,
            channels: self.channels,
            end_pos,
        };
        assert(self.samples@.subrange(0, end_pos as int) =~= self.samples@);
        source
    }

    /// A source that plays `duration_ms` milliseconds from `start_ms` on,
    /// cut short at the end of the buffer.
    pub fn to_source_slice(&self, start_ms: u64, duration_ms: u64) -> (source: AudioBufferSource)
        requires
            slice_fits(start_ms, duration_ms, self.sample_rate, self.channels),
        ensures
            source.samples() == self.samples@,
            source.position() == offset_for_ms(start_ms, self.sample_rate, self.channels),
            source.end_position() == min_int(
                offset_for_ms(start_ms, self.sample_rate, self.channels) + offset_for_ms(
                    duration_ms,
                    self.sample_rate,
                    self.channels,
                ),
                self.samples@.len() as int,
            ),
            source.rate() == self.sample_rate,
            source.channel_count() == self.channels,
    {
        let start_pos = offset_of(start_ms, self.sample_rate, self.channels);
        let duration_pos = offset_of(duration_ms, self.sample_rate, self.channels);
        let len = self.samples.len();
        let wanted_end = start_pos + duration_pos;
        let end_pos = if wanted_end <= len {
            wanted_end
        } else {
            len
        };
        AudioBufferSource {
            buffer: share_samples(&self.samples),
            pos: start_pos,
            sample_rate: self.sample_rate,
            channels: self.channels,
            end_pos,
        }
    }
}

/// Plays samples of a buffer from a position up to (not including) an end.
pub struct AudioBufferSource {
    buffer: Arc<Vec<i16>>,
    pos: usize,
    sample_rate: u32,
    channels: u16,
    end_pos: usize,
}

impl AudioBufferSource {
    /// The end never lies beyond the buffer.
    #[verifier::type_invariant]
    spec fn end_within_buffer(self) -> bool {
        self.end_pos <= self.buffer@.len()
    }

    /// All samples of the underlying buffer.
    pub closed spec fn samples(&self) -> Seq<i16> {
        self.buffer@
    }

    /// Index of the next sample to play.
    pub closed spec fn position(&self) -> nat {
        self.pos as nat
    }

    /// Index at which playback stops.
    pub closed spec fn end_position(&self) -> nat {
        self.end_pos as nat
    }

    pub closed spec fn rate(&self) -> u32 {
        self.sample_rate
    }

    pub closed spec fn channel_count(&self) -> u16 {
        self.channels
    }

    /// The samples still to be played, in order.
    pub open spec fn pending(&self) -> Seq<i16> {
        if self.position() < self.end_position() {
            self.samples().subrange(self.position() as int, self.end_position() as int)
        } else {
            Seq::empty()
        }
    }

    /// The next sample, or `None` once the end is reached; the source stays
    /// ended from then on.
    pub fn next_sample(&mut self) -> (sample: Option<i16>)
        ensures
            final(self).samples() == old(self).samples(),
            final(self).end_position() == old(self).end_position(),
            final(self).rate() == old(self).rate(),
            final(self).channel_count() == old(self).channel_count(),
            old(self).pending().len() > 0 ==> {
                &&& sample == Some(old(self).pending()[0])
                &&& final(self).position() == old(self).position() + 1
                &&& final(self).pending() == old(self).pending().drop_first()
            },
            old(self).pending().len() == 0 ==> {
                &&& sample is None
                &&& final(self).position() == old(self).position()
                &&& final(self).pending().len() == 0
            },
    {
        proof {
            use_type_invariant(&*self);
        }
        if self.pos < self.end_pos {
            let sample = self.buffer[self.pos];
            self.pos = self.pos + 1;
            assert(old(self).pending().drop_first() =~= self.pending());
            Some(sample)
        } else {
            None
        }
    }

    /// Number of samples left to play; `None` when the position lies past
    /// the end (a slice that starts beyond the buffer).
    pub fn remaining_samples(&self) -> (remaining: Option<usize>)
        ensures
            self.position() <= self.end_position() ==> remaining == Some(
                (self.end_position() - self.position()) as usize,
            ),
            self.position() > self.end_position() ==> remaining is None,
    {
        if self.pos <= self.end_pos {
            Some(self.end_pos - self.pos)
        } else {
            None
        }
    }

    /// The source has no fixed span length.
    pub fn current_span_len(&self) -> (len: Option<usize>)
        ensures
            len is None,
    {
        None
    }

    pub fn channels(&self) -> (channels: u16)
        ensures
            channels == self.channel_count(),
    {
        self.channels
    }

    pub fn sample_rate(&self) -> (rate: u32)
        ensures
            rate == self.rate(),
    {
        self.sample_rate
    }
}

/// A sound pack read from disk: its description and the decoded sounds,
/// keyed by `"main"` (single mode) or by file name (multi mode).
pub struct LoadedSoundPack {
    pub config: MechvibesConfig,
    pub buffers: StringHashMap<AudioBuffer>,
}

/// The map that inserting `entries` one after another builds; a later entry
/// replaces an earlier one with the same key.
pub open spec fn buffer_map(entries: Seq<(String, AudioBuffer)>) -> Map<Seq<char>, AudioBuffer>
    decreases entries.len(),
{
    if entries.len() == 0 {
        Map::empty()
    } else {
        buffer_map(entries.drop_last()).insert(entries.last().0@, entries.last().1)
    }
}


/// Every key of the entries is in the map, the map has no other key, and a
/// key maps to the buffer of the last entry that has it.
#[verifier::spinoff_prover]
#[verifier::rlimit(40)]
pub proof fn lemma_buffer_map_holds_last_of_each_key(entries: Seq<(String, AudioBuffer)>)
    ensures
        forall|i: int|
            0 <= i < entries.len() ==> buffer_map(entries).contains_key(#[trigger] entries[i].0@),
        forall|key: Seq<char>|
            #[trigger] buffer_map(entries).contains_key(key) ==> exists|i: int|
                0 <= i < entries.len() && entries[i].0@ == key,
        forall|i: int|
            #![trigger entries[i]]
            0 <= i < entries.len() && (forall|j: int| i < j < entries.len() ==> entries[j].0@
                != entries[i].0@) ==> buffer_map(entries)[entries[i].0@] == entries[i].1,
    decreases entries.len(),
{
    if entries.len() > 0 {
        let before = entries.drop_last();
        let n = entries.len() - 1;
        lemma_buffer_map_holds_last_of_each_key(before);
        assert forall|i: int| 0 <= i < entries.len() implies buffer_map(entries).contains_key(
            #[trigger] entries[i].0@,
        ) by {
            if i < n {
                assert(before[i] == entries[i]);
            }
        }
        assert forall|key: Seq<char>| #[trigger] buffer_map(entries).contains_key(key) implies exists|i: int|
            0 <= i < entries.len() && entries[i].0@ == key by {
            if key != entries[n].0@ {
                assert(buffer_map(before).contains_key(key));
                let i = choose|i: int| 0 <= i < before.len() && before[i].0@ == key;
                assert(entries[i] == before[i]);
            }
        }
        assert forall|i: int|
            #![trigger entries[i]]
            0 <= i < entries.len() && (forall|j: int| i < j < entries.len() ==> entries[j].0@
                != entries[i].0@) implies buffer_map(entries)[entries[i].0@] == entries[i].1 by {
            if i < n {
                assert(entries[n].0@ != entries[i].0@);
                assert(before[i] == entries[i]);
                assert forall|j: int| i < j < before.len() implies before[j].0@ != before[i].0@ by {
                    assert(before[j] == entries[j]);
                }
            }
        }
    }
}

impl LoadedSoundPack {
    /// The pack made of `config` and the decoded sounds, inserted in order.
    pub fn assemble(config: MechvibesConfig, decoded: Vec<(String, AudioBuffer)>) -> (pack: Self)
        ensures
            pack.config == config,
            pack.buffers@ == buffer_map(decoded@),
            forall|i: int|
                0 <= i < decoded@.len() ==> pack.buffers@.contains_key(#[trigger] decoded@[i].0@),
            forall|key: Seq<char>|
                #[trigger] pack.buffers@.contains_key(key) ==> exists|i: int|
                    0 <= i < decoded@.len() && decoded@[i].0@ == key,
            forall|i: int|
                #![trigger decoded@[i]]
                0 <= i < decoded@.len() && (forall|j: int|
                    i < j < decoded@.len() ==> decoded@[j].0@ != decoded@[i].0@)
                    ==> pack.buffers@[decoded@[i].0@] == decoded@[i].1,
    {
        proof {
            lemma_buffer_map_holds_last_of_each_key(decoded@);
        }
        let ghost all = decoded@;
        let mut rest = decoded;
        let mut buffers: StringHashMap<AudioBuffer> = StringHashMap::new();
        let ghost mut k: int = 0;
        assert(all.take(0) =~= Seq::<(String, AudioBuffer)>::empty());
        while rest.len() > 0
            invariant
                0 <= k <= all.len(),
                rest@ == all.subrange(k, all.len() as int),
                buffers@ == buffer_map(all.take(k)),
            decreases rest.len(),
        {
            let (key, buffer) = rest.remove(0);
            proof {
                assert(all.take(k + 1).drop_last() =~= all.take(k));
                assert(all.take(k + 1).last() == all[k]);
            }
            buffers.insert(key, buffer);
            proof {
                assert(rest@ =~= all.subrange(k + 1, all.len() as int));
                k = k + 1;
            }
        }
        assert(all.take(all.len() as int) =~= all);
        LoadedSoundPack { config, buffers }
    }
}

/// Why a path inside a sound pack was refused.
#[derive(Debug, Clone, PartialEq, Eq)]
pub enum PathError {
    /// The relative path given is absolute or steps to a parent directory.
    ForbiddenComponent(String),
    /// The resolved path leaves the pack directory (through a symbolic link).
    EscapesBase(String),
    /// The pack directory path steps to a parent directory.
    TraversalDetected(String),
}

/// A relative path that a pack may not name: absolute, or with a `..` step.
pub open spec fn is_forbidden_sub_path(sub: Seq<char>) -> bool {
    has_root(sub) || has_parent_dir(sub)
}

/// A sound file to read while loading a pack.
#[derive(Debug, Clone)]
pub struct SoundTarget {
    /// Key under which the decoded sound is stored.
    pub key: String,
    /// File path relative to the pack directory.
    pub file: String,
    /// A required file must exist and decode; otherwise loading fails.
    /// An optional one is skipped when missing or undecodable.
    pub required: bool,
}

/// The multi-mode targets of `defines`: one per define naming a file, in order.
pub open spec fn multi_targets(defines: Seq<(String, KeyDefine)>) -> Seq<(Seq<char>, Seq<char>, bool)>
    decreases defines.len(),
{
    if defines.len() == 0 {
        Seq::empty()
    } else {
        let before = multi_targets(defines.drop_last());
        match defines.last().1 {
            KeyDefine::Multi(Some(file)) => before.push((file@, file@, false)),
            _ => before,
        }
    }
}


/// The define names a sound file of its own (multi mode).
pub open spec fn names_file(define: (String, KeyDefine)) -> bool {
    define.1 matches KeyDefine::Multi(Some(_))
}

/// The file a define names, when it names one.
pub open spec fn named_file(define: (String, KeyDefine)) -> Seq<char> {
    match define.1 {
        KeyDefine::Multi(Some(file)) => file@,
        _ => Seq::empty(),
    }
}

pub open spec fn names_file_pred() -> spec_fn((String, KeyDefine)) -> bool {
    |define: (String, KeyDefine)| names_file(define)
}

/// The optional target that reads the file a define names.
pub open spec fn file_target(define: (String, KeyDefine)) -> (Seq<char>, Seq<char>, bool) {
    (named_file(define), named_file(define), false)
}

/// In multi mode each define that names a file, whatever the file's name,
/// gives one optional target for that file, keyed by the file name, in the
/// order of the defines; no other define gives a target.
pub proof fn lemma_multi_targets_are_named_files(defines: Seq<(String, KeyDefine)>)
    ensures
        multi_targets(defines) == defines.filter(names_file_pred()).map_values(
            |define: (String, KeyDefine)| file_target(define),
        ),
        multi_targets(defines).len() == defines.filter(names_file_pred()).len(),
        forall|i: int|
            0 <= i < defines.len() && names_file(#[trigger] defines[i]) ==> multi_targets(
                defines,
            ).contains(file_target(defines[i])),
    decreases defines.len(),
{
    reveal(Seq::filter);
    let kept = defines.filter(names_file_pred());
    if defines.len() > 0 {
        let before = defines.drop_last();
        lemma_multi_targets_are_named_files(before);
        let kb = before.filter(names_file_pred());
        assert(defines.filter(names_file_pred()) == if names_file(defines.last()) {
            kb.push(defines.last())
        } else {
            kb
        });
        match defines.last().1 {
            KeyDefine::Multi(Some(file)) => {
                assert(kept.map_values(|define: (String, KeyDefine)| file_target(define))
                    =~= kb.map_values(|define: (String, KeyDefine)| file_target(define)).push(
                    (file@, file@, false),
                ));
            },
            _ => {},
        }
    } else {
        assert(kept.map_values(|define: (String, KeyDefine)| file_target(define))
            =~= Seq::<(Seq<char>, Seq<char>, bool)>::empty());
    }
    defines.filter_lemma(names_file_pred());
    assert forall|i: int|
        0 <= i < defines.len() && names_file(#[trigger] defines[i]) implies multi_targets(
            defines,
        ).contains(file_target(defines[i])) by {
        assert(names_file_pred()(defines[i]));
        assert(kept.contains(defines[i]));
        let j = choose|j: int| 0 <= j < kept.len() && kept[j] == defines[i];
        assert(multi_targets(defines)[j] == file_target(defines[i]));
    }
}

/// The targets a pack description asks for, as (key, file, required).
pub open spec fn sound_targets_of(config: MechvibesConfig) -> Seq<(Seq<char>, Seq<char>, bool)> {
    match config.key_define_type {
        KeyDefineType::Single => seq![(seq!['m', 'a', 'i', 'n'], config.sound@, true)],
        KeyDefineType::Multi => multi_targets(config.defines@),
    }
}

pub open spec fn target_view(target: SoundTarget) -> (Seq<char>, Seq<char>, bool) {
    (target.key@, target.file@, target.required)
}

/// The file name of a pack description inside its directory.
pub open spec fn config_file_name() -> Seq<char> {
    seq!['c', 'o', 'n', 'f', 'i', 'g', '.', 'j', 's', 'o', 'n']
}

/// Loads sound packs and lists the ones installed.
pub struct SoundPackLoader;

impl SoundPackLoader {
    /// `sub` joined to `base`, refused when `sub` is absolute or has a `..` step.
    pub fn safe_join(base: &str, sub: &str) -> (path: Result<String, PathError>)
        ensures
            match path {
                Ok(p) => !is_forbidden_sub_path(sub@) && p@ == joined(base@, sub@),
                Err(e) => is_forbidden_sub_path(sub@) && (e matches PathError::ForbiddenComponent(
                    s,
                ) && s@ == sub@),
            },
    {
        if is_absolute(sub) || contains_parent_dir(sub) {
            return Err(PathError::ForbiddenComponent(sub.to_owned()));
        }
        Ok(join_paths(base, sub))
    }

    /// The resolved file path when it stays under the resolved pack
    /// directory; refused otherwise (`sub` names the file in the error).
    pub fn confine(resolved: &str, resolved_base: &str, sub: &str) -> (path: Result<String, PathError>)
        ensures
            match path {
                Ok(p) => path_starts_with(resolved@, resolved_base@) && p@ == resolved@,
                Err(e) => !path_starts_with(resolved@, resolved_base@) && (e matches PathError::EscapesBase(
                    s,
                ) && s@ == sub@),
            },
    {
        if starts_with_path(resolved, resolved_base) {
            Ok(resolved.to_owned())
        } else {
            Err(PathError::EscapesBase(sub.to_owned()))
        }
    }

    /// Refuses a pack directory path with a `..` step.
    pub fn check_pack_dir(path: &str) -> (checked: Result<(), PathError>)
        ensures
            match checked {
                Ok(()) => !has_parent_dir(path@),
                Err(e) => has_parent_dir(path@) && (e matches PathError::TraversalDetected(s)
                    && s@ == path@),
            },
    {
        if contains_parent_dir(path) {
            Err(PathError::TraversalDetected(path.to_owned()))
        } else {
            Ok(())
        }
    }

    /// Where the description of the pack in `pack_dir` is stored.
    pub fn config_path(pack_dir: &str) -> (path: String)
        ensures
            path@ == joined(pack_dir@, config_file_name()),
    {
        proof {
            reveal_strlit("config.json");
        }
        let name = "config.json";
        assert(name@ =~= config_file_name());
        join_paths(pack_dir, name)
    }

    /// The sound files to read for a pack: the one `sound` file under
    /// `"main"` in single mode; in multi mode every file that a define
    /// names, under its own name, each optional.
    pub fn sound_targets(config: &MechvibesConfig) -> (targets: Vec<SoundTarget>)
        ensures
            targets@.map_values(|t: SoundTarget| target_view(t)) == sound_targets_of(*config),
            config.key_define_type is Multi ==> targets@.map_values(|t: SoundTarget| target_view(t))
                == config.defines@.filter(names_file_pred()).map_values(
                |define: (String, KeyDefine)| file_target(define),
            ),
            config.key_define_type is Single ==> targets@.len() == 1 && targets@[0].key@
                == seq!['m', 'a', 'i', 'n'] && targets@[0].file@ == config.sound@
                && targets@[0].required,
    {
        proof {
            lemma_multi_targets_are_named_files(config.defines@);
        }
        let mut targets: Vec<SoundTarget> = Vec::new();
        match config.key_define_type {
            KeyDefineType::Single => {
                proof {
                    reveal_strlit("main");
                }
                let key = "main".to_owned();
                assert(key@ =~= seq!['m', 'a', 'i', 'n']);
                targets.push(SoundTarget { key, file: config.sound.clone(), required: true });
                assert(targets@.map_values(|t: SoundTarget| target_view(t)) =~= sound_targets_of(
                    *config,
                ));
            },
            KeyDefineType::Multi => {
                let n = config.defines.len();
                let mut i: usize = 0;
                assert(config.defines@.take(0) =~= Seq::<(String, KeyDefine)>::empty());
                while i < n
                    invariant
                        n == config.defines@.len(),
                        i <= n,
                        config.key_define_type == KeyDefineType::Multi,
                        targets@.map_values(|t: SoundTarget| target_view(t)) == multi_targets(
                            config.defines@.take(i as int),
                        ),
                    decreases n - i,
                {
                    let ghost before = targets@.map_values(|t: SoundTarget| target_view(t));
                    proof {
                        assert(config.defines@.take(i + 1).drop_last() =~= config.defines@.take(
                            i as int,
                        ));
                        assert(config.defines@.take(i + 1).last() == config.defines@[i as int]);
                    }
                    match &config.defines[i].1 {
                        KeyDefine::Multi(Some(file)) => {
                            targets.push(
                                SoundTarget { key: file.clone(), file: file.clone(), required: false },
                            );
                            assert(targets@.map_values(|t: SoundTarget| target_view(t)) =~= before.push(
                                (file@, file@, false),
                            ));
                        },
                        _ => {},
                    }
                    i = i + 1;
                }
                assert(config.defines@.take(n as int) =~= config.defines@);
            },
        }
        targets
    }
}

/// A path that `safe_join` accepts lies under the base: its components are
/// the base's, followed by named components of the sub path, none of which
/// steps to a parent directory.
pub proof fn lemma_safe_join_stays_under_base(base: Seq<char>, sub: Seq<char>)
    requires
        !is_forbidden_sub_path(sub),
    ensures
        path_starts_with(joined(base, sub), base),
        base.len() > 0 ==> components(joined(base, sub)) == components(base) + kept_pieces(
            segments(sub),
        ),
        !kept_pieces(segments(sub)).contains(parent_dir()),
{
    let lead = lead_components(sub);
    let kept = kept_pieces(segments(sub));
    assert forall|i: int| 0 <= i < kept.len() implies kept[i] != parent_dir() by {
        assert(components(sub)[lead.len() + i] == kept[i]);
        if kept[i] == parent_dir() {
            assert(components(sub).contains(parent_dir()));
        }
    }
    if base.len() > 0 {
        lemma_join_extends_base(base, sub);
    } else {
        assert(joined(base, sub) =~= sub);
        assert(base =~= Seq::<char>::empty());
        lemma_empty_path_components();
        assert(components(sub).take(0) =~= Seq::<Seq<char>>::empty());
    }
}

/// In multi mode every target is optional and stored under its own file name.
pub proof fn lemma_multi_targets_optional(defines: Seq<(String, KeyDefine)>)
    ensures
        forall|i: int|
            0 <= i < multi_targets(defines).len() ==> !(#[trigger] multi_targets(defines)[i]).2
                && multi_targets(defines)[i].0 == multi_targets(defines)[i].1,
    decreases defines.len(),
{
    if defines.len() > 0 {
        let before = multi_targets(defines.drop_last());
        lemma_multi_targets_optional(defines.drop_last());
        match defines.last().1 {
            KeyDefine::Multi(Some(file)) => {
                assert forall|i: int| 0 <= i < before.len() implies multi_targets(defines)[i]
                    == before[i] by {}
            },
            _ => {},
        }
    }
}

} // verus!
