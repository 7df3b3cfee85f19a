//! Creature metadata preservation.
//!
//! When a creature is written, its creature-level tags and its per-neuron tags
//! are attached again; neurons that a patch appended get tags of their own. The
//! creature's own identity and its lineage record are dropped: they describe a
//! structure that no longer exists.

use vstd::prelude::*;
use vstd::string::*;

use crate::json;
use crate::json::{
    fold, parse_object, parse_value, print_value, put_field, take_field, unfold, write_value,
    write_value_pretty, JsonModel, Layer,
};

verus! {

/// Name/value tag.
#[derive(Debug, PartialEq)]
pub struct Tag {
    /// Tag name.
    pub name: String,
    /// Tag value.
    pub value: String,
}

/// What a [`Tag`] says.
pub struct TagModel {
    pub name: Seq<char>,
    pub value: Seq<char>,
}

impl View for Tag {
    type V = TagModel;

    open spec fn view(&self) -> TagModel {
        TagModel { name: self.name@, value: self.value@ }
    }
}

/// What each tag says.
pub open spec fn tag_models(tags: Seq<Tag>) -> Seq<TagModel> {
    tags.map_values(|t: Tag| t@)
}

impl Tag {
    /// A tag with the given name and value.
    pub fn new(name: &str, value: &str) -> (r: Tag)
        ensures
            r@ == (TagModel { name: name@, value: value@ }),
    {
        Tag { name: name.to_owned(), value: value.to_owned() }
    }

    fn copy(&self) -> (r: Tag)
        ensures
            r@ == self@,
    {
        Tag { name: self.name.clone(), value: self.value.clone() }
    }
}

/// The fields of an object; none when the value is no object.
pub open spec fn fields_in(value: JsonModel) -> Map<Seq<char>, JsonModel> {
    match value {
        JsonModel::Object(fields) => fields,
        _ => Map::empty(),
    }
}

/// The elements of an array; none when there is no value or it is no array.
pub open spec fn elements_in(value: Option<JsonModel>) -> Seq<JsonModel> {
    match value {
        Some(JsonModel::List(elements)) => elements,
        _ => Seq::empty(),
    }
}

/// The text of a string.
pub open spec fn text_in(value: Option<JsonModel>) -> Option<Seq<char>> {
    match value {
        Some(JsonModel::Text(text)) => Some(text),
        _ => None,
    }
}

/// A tag's value as text: a string or a scalar as it is, anything else printed,
/// and nothing when there is no value.
pub open spec fn value_text(value: Option<JsonModel>) -> Seq<char> {
    match value {
        Some(JsonModel::Text(text)) => text,
        Some(JsonModel::Scalar(text)) => text,
        Some(other) => json::json_printed(other),
        None => Seq::empty(),
    }
}

/// An entry of a tag list as a tag: it must be an object with a string for a name.
pub open spec fn tag_in(value: JsonModel) -> Option<TagModel> {
    match text_in(json::field(fields_in(value), "name"@)) {
        Some(name) => Some(
            TagModel { name, value: value_text(json::field(fields_in(value), "value"@)) },
        ),
        None => None,
    }
}

/// The tags among the first `n` entries.
pub open spec fn first_tags(entries: Seq<JsonModel>, n: int) -> Seq<TagModel>
    decreases n,
{
    if n <= 0 {
        Seq::empty()
    } else {
        match tag_in(entries[n - 1]) {
            Some(tag) => first_tags(entries, n - 1).push(tag),
            None => first_tags(entries, n - 1),
        }
    }
}

/// The tags of a tag list, if it is one.
pub open spec fn parsed(value: Option<JsonModel>) -> Seq<TagModel> {
    first_tags(elements_in(value), elements_in(value).len() as int)
}

/// What an optional value holds.
pub open spec fn held(value: Option<serde_json::Value>) -> Option<JsonModel> {
    match value {
        Some(value) => Some(json::content(value)),
        None => None,
    }
}

fn take_fields(value: serde_json::Value) -> (r: Vec<(String, serde_json::Value)>)
    ensures
        json::distinct_fields(r@),
        json::object_of(r@) == fields_in(json::content(value)),
{
    match unfold(value) {
        Layer::Object(fields) => fields,
        _ => Vec::new(),
    }
}

fn take_elements(value: Option<serde_json::Value>) -> (r: Vec<serde_json::Value>)
    ensures
        json::contents(r@) == elements_in(held(value)),
{
    if let Some(value) = value {
        if let Layer::List(elements) = unfold(value) {
            return elements;
        }
    }
    let none: Vec<serde_json::Value> = Vec::new();
    assert(json::contents(none@) =~= Seq::empty());
    none
}

fn take_text(value: Option<serde_json::Value>) -> (r: Option<String>)
    ensures
        match r {
            Some(text) => text_in(held(value)) == Some(text@),
            None => text_in(held(value)) is None,
        },
{
    if let Some(value) = value {
        if let Layer::Text(text) = unfold(value) {
            return Some(text);
        }
    }
    None
}

fn parse_tag(value: serde_json::Value) -> (r: Option<Tag>)
    ensures
        match r {
            Some(tag) => tag_in(json::content(value)) == Some(tag@),
            None => tag_in(json::content(value)) is None,
        },
{
    let mut fields = take_fields(value);
    let ghost all = fields_in(json::content(value));
    proof {
        reveal_strlit("name");
        reveal_strlit("value");
        assert("name"@.len() != "value"@.len());
    }
    let name = take_text(take_field(&mut fields, "name"));
    let value = take_field(&mut fields, "value");
    assert(held(value) == json::field(all, "value"@));
    match name {
        None => None,
        Some(name) => {
            let text = match value {
                None => String::new(),
                Some(value) => match unfold(value) {
                    Layer::Text(text) => text,
                    other => print_value(&fold(other)),
                },
            };
            assert(text@ =~= value_text(held(value)));
            Some(Tag { name, value: text })
        },
    }
}

fn parse_tags(value: Option<serde_json::Value>) -> (r: Vec<Tag>)
    ensures
        tag_models(r@) == parsed(held(value)),
{
    let entries = take_elements(value);
    let ghost models = json::contents(entries@);
    let mut out: Vec<Tag> = Vec::new();
    assert(tag_models(out@) =~= Seq::empty());
    for entry in it: entries.into_iter()
        invariant
            it.seq() == entries@,
            models == json::contents(entries@),
            tag_models(out@) == first_tags(models, it.index() as int),
    {
        let ghost before = out@;
        let ghost at = it.index() as int;
        assert(models[at] == json::content(entry));
        if let Some(tag) = parse_tag(entry) {
            out.push(tag);
            assert(tag_models(out@) =~= tag_models(before).push(tag@));
        }
    }
    out
}

/// Metadata carried alongside a creature.
#[derive(Debug, PartialEq)]
pub struct CreatureMeta {
    /// Creature-level tags in original order.
    pub tags: Vec<Tag>,
    /// Per-neuron tags, each uuid once.
    pub neuron_tags: Vec<(String, Vec<Tag>)>,
}

/// Where a uuid stands; the number of entries when it does not.
pub open spec fn entry_place(
    entries: Seq<(String, Vec<Tag>)>,
    uuid: Seq<char>,
    from: int,
) -> int
    decreases entries.len() - from,
{
    if from < 0 || from >= entries.len() {
        entries.len() as int
    } else if entries[from].0@ == uuid {
        from
    } else {
        entry_place(entries, uuid, from + 1)
    }
}

proof fn entry_place_is_first(entries: Seq<(String, Vec<Tag>)>, uuid: Seq<char>, from: int)
    requires
        0 <= from <= entries.len(),
    ensures
        from <= entry_place(entries, uuid, from) <= entries.len(),
        entry_place(entries, uuid, from) < entries.len() ==> entries[entry_place(
            entries,
            uuid,
            from,
        )].0@ == uuid,
        forall|k: int|
            from <= k < entry_place(entries, uuid, from) ==> (#[trigger] entries[k]).0@ != uuid,
    decreases entries.len() - from,
{
    if from < entries.len() && entries[from].0@ != uuid {
        entry_place_is_first(entries, uuid, from + 1);
    }
}

proof fn place_is_determined(
    entries: Seq<(String, Vec<Tag>)>,
    uuid: Seq<char>,
    k: int,
)
    requires
        0 <= k <= entries.len(),
        k < entries.len() ==> entries[k].0@ == uuid,
        forall|j: int| 0 <= j < k ==> (#[trigger] entries[j]).0@ != uuid,
    ensures
        entry_place(entries, uuid, 0) == k,
{
    entry_place_is_first(entries, uuid, 0);
    let p = entry_place(entries, uuid, 0);
    if p < k {
        assert(entries[p].0@ == uuid);
    }
    if p > k {
        assert(entries[k].0@ != uuid);
    }
}

/// No uuid is listed twice.
pub open spec fn distinct_uuids(entries: Seq<(String, Vec<Tag>)>) -> bool {
    forall|a: int, b: int|
        0 <= a < b < entries.len() ==> (#[trigger] entries[a]).0@ != (#[trigger] entries[b]).0@
}

fn find_entry(entries: &Vec<(String, Vec<Tag>)>, uuid: &str) -> (r: usize)
    ensures
        r == entry_place(entries@, uuid@, 0),
        r <= entries@.len(),
{
    let key = uuid.to_owned();
    let mut i: usize = 0;
    while i < entries.len()
        invariant
            key@ == uuid@,
            i <= entries@.len(),
            entry_place(entries@, uuid@, 0) == entry_place(entries@, uuid@, i as int),
        decreases entries@.len() - i,
    {
        if entries[i].0 == key {
            return i;
        }
        i = i + 1;
    }
    i
}

/// The uuid of a neuron, if it has a string for one.
pub open spec fn uuid_in(neuron: JsonModel) -> Option<Seq<char>> {
    text_in(json::field(fields_in(neuron), "uuid"@))
}

/// The tags of a neuron.
pub open spec fn neuron_tags_in(neuron: JsonModel) -> Seq<TagModel> {
    parsed(json::field(fields_in(neuron), "tags"@))
}

/// The tags of the last of the first `n` neurons that has the uuid and any tag.
pub open spec fn source_tags(neurons: Seq<JsonModel>, uuid: Seq<char>, n: int) -> Option<
    Seq<TagModel>,
>
    decreases n,
{
    if n <= 0 {
        None
    } else if uuid_in(neurons[n - 1]) == Some(uuid) && neuron_tags_in(neurons[n - 1]).len() > 0 {
        Some(neuron_tags_in(neurons[n - 1]))
    } else {
        source_tags(neurons, uuid, n - 1)
    }
}

/// The neurons of a creature file.
pub open spec fn neurons_in(creature: JsonModel) -> Seq<JsonModel> {
    elements_in(json::field(fields_in(creature), "neurons"@))
}

/// Where a tag of the name first stands; the number of tags when it does not.
pub open spec fn tag_place(tags: Seq<TagModel>, name: Seq<char>, from: int) -> int
    decreases tags.len() - from,
{
    if from < 0 || from >= tags.len() {
        tags.len() as int
    } else if tags[from].name == name {
        from
    } else {
        tag_place(tags, name, from + 1)
    }
}

/// The tags with the first one of the name given a new value, or a new one
/// behind them.
pub open spec fn upserted(tags: Seq<TagModel>, name: Seq<char>, value: Seq<char>) -> Seq<TagModel> {
    let at = tag_place(tags, name, 0);
    if at < tags.len() {
        tags.update(at, TagModel { name, value })
    } else {
        tags.push(TagModel { name, value })
    }
}

impl CreatureMeta {
    /// No neuron has two entries.
    pub open spec fn well_formed(&self) -> bool {
        distinct_uuids(self.neuron_tags@)
    }

    /// The tags of a neuron, if it has an entry.
    pub open spec fn tags_of(&self, uuid: Seq<char>) -> Option<Seq<TagModel>> {
        let at = entry_place(self.neuron_tags@, uuid, 0);
        if at < self.neuron_tags@.len() {
            Some(tag_models(self.neuron_tags@[at].1@))
        } else {
            None
        }
    }

    /// The metadata is what a creature file says of tags.
    pub open spec fn tells(&self, creature: JsonModel) -> bool {
        &&& self.well_formed()
        &&& tag_models(self.tags@) == parsed(json::field(fields_in(creature), "tags"@))
        &&& forall|uuid: Seq<char>| #[trigger]
            self.tags_of(uuid) == source_tags(
                neurons_in(creature),
                uuid,
                neurons_in(creature).len() as int,
            )
    }

    /// Read creature-level and per-neuron tags off the text of a creature file; a
    /// text that is no JSON has none.
    pub fn from_json(text: &str) -> (r: CreatureMeta)
        ensures
            match json::json_read(text@) {
                Ok(creature) => r.tells(creature),
                Err(_) => r.tags@.len() == 0 && r.neuron_tags@.len() == 0,
            },
    {
        match parse_value(text) {
            Ok(value) => CreatureMeta::from_value(value),
            Err(_) => CreatureMeta::default(),
        }
    }

    /// Read creature-level and per-neuron tags off a creature file.
    pub fn from_value(value: serde_json::Value) -> (r: CreatureMeta)
        ensures
            r.tells(json::content(value)),
    {
        let ghost all = fields_in(json::content(value));
        let mut fields = take_fields(value);
        proof {
            reveal_strlit("tags");
            reveal_strlit("neurons");
            assert("tags"@.len() != "neurons"@.len());
        }
        let tags = take_field(&mut fields, "tags");
        let listed = take_field(&mut fields, "neurons");
        assert(held(listed) == json::field(all, "neurons"@));
        let neurons = take_elements(listed);
        let ghost models = json::contents(neurons@);
        let mut out = CreatureMeta { tags: parse_tags(tags), neuron_tags: Vec::new() };
        for neuron in it: neurons.into_iter()
            invariant
                it.seq() == neurons@,
                models == json::contents(neurons@),
                out.well_formed(),
                tag_models(out.tags@) == parsed(json::field(all, "tags"@)),
                forall|uuid: Seq<char>| #[trigger]
                    out.tags_of(uuid) == source_tags(models, uuid, it.index() as int),
        {
            let ghost own = fields_in(json::content(neuron));
            assert(models[it.index() as int] == json::content(neuron));
            let mut fields = take_fields(neuron);
            proof {
                reveal_strlit("uuid");
                reveal_strlit("tags");
                assert("uuid"@[0] != "tags"@[0]);
            }
            let uuid = take_text(take_field(&mut fields, "uuid"));
            if let Some(uuid) = uuid {
                let listed = take_field(&mut fields, "tags");
                assert(held(listed) == json::field(own, "tags"@));
                let tags = parse_tags(listed);
                assert(tag_models(tags@).len() == tags@.len());
                if tags.len() > 0 {
                    out.put(uuid.as_str(), tags);
                }
            }
        }
        out
    }

    /// Give a neuron an entry, in place of the one it may have.
    fn put(&mut self, uuid: &str, tags: Vec<Tag>)
        requires
            old(self).well_formed(),
        ensures
            final(self).well_formed(),
            final(self).tags == old(self).tags,
            forall|u: Seq<char>| #[trigger]
                final(self).tags_of(u) == if u == uuid@ {
                    Some(tag_models(tags@))
                } else {
                    old(self).tags_of(u)
                },
    {
        let at: usize = find_entry(&self.neuron_tags, uuid);
        let ghost before = self.neuron_tags@;
        proof {
            entry_place_is_first(before, uuid@, 0);
        }
        let entry = (uuid.to_owned(), tags);
        if at < self.neuron_tags.len() {
            self.neuron_tags.set(at, entry);
            assert(self.neuron_tags@ =~= before.update(at as int, entry));
        } else {
            self.neuron_tags.push(entry);
        }
        proof {
            let after = self.neuron_tags@;
            assert forall|u: Seq<char>| #[trigger]
                self.tags_of(u) == if u == uuid@ {
                    Some(tag_models(tags@))
                } else {
                    old(self).tags_of(u)
                } by {
                entry_place_is_first(before, u, 0);
                let p = entry_place(before, u, 0);
                if u == uuid@ {
                    place_is_determined(after, u, at as int);
                } else if p < before.len() {
                    assert(p != at);
                    assert forall|j: int| 0 <= j < p implies (#[trigger] after[j]).0@ != u by {
                        if j != at {
                            assert(after[j] == before[j]);
                        }
                    }
                    assert(after[p] == before[p]);
                    place_is_determined(after, u, p);
                } else {
                    assert forall|j: int| 0 <= j < after.len() implies (
                    #[trigger] after[j]).0@ != u by {
                        if j != at {
                            assert(after[j] == before[j]);
                        }
                    }
                    place_is_determined(after, u, after.len() as int);
                }
            }
        }
    }

    /// Replace or append a creature-level tag.
    pub fn upsert(&mut self, name: &str, value: String)
        ensures
            tag_models(final(self).tags@) == upserted(tag_models(old(self).tags@), name@, value@),
            final(self).neuron_tags == old(self).neuron_tags,
    {
        let ghost before = self.tags@;
        let ghost models = tag_models(before);
        let key = name.to_owned();
        let mut i: usize = 0;
        while i < self.tags.len()
            invariant
                self.tags@ == before,
                before == old(self).tags@,
                models == tag_models(before),
                key@ == name@,
                i <= before.len(),
                tag_place(models, name@, 0) == tag_place(models, name@, i as int),
                self.neuron_tags == old(self).neuron_tags,
            decreases before.len() - i,
        {
            assert(models[i as int] == before[i as int]@);
            if self.tags[i].name == key {
                let tag = Tag { name: key, value };
                self.tags.set(i, tag);
                assert(tag_models(self.tags@) =~= models.update(i as int, tag@));
                return;
            }
            i = i + 1;
        }
        let tag = Tag { name: key, value };
        self.tags.push(tag);
        assert(tag_models(self.tags@) =~= models.push(tag@));
    }

    /// Attach tags to a neuron, behind any that it already has.
    pub fn tag_neuron(&mut self, uuid: &str, tags: &Vec<Tag>)
        requires
            old(self).well_formed(),
        ensures
            final(self).well_formed(),
            final(self).tags == old(self).tags,
            forall|u: Seq<char>| #[trigger]
                final(self).tags_of(u) == if u == uuid@ {
                    Some(
                        match old(self).tags_of(u) {
                            Some(own) => own + tag_models(tags@),
                            None => tag_models(tags@),
                        },
                    )
                } else {
                    old(self).tags_of(u)
                },
    {
        let at: usize = find_entry(&self.neuron_tags, uuid);
        let mut all: Vec<Tag> = if at < self.neuron_tags.len() {
            copy_tags(&self.neuron_tags[at].1)
        } else {
            Vec::new()
        };
        let ghost own = tag_models(all@);
        for i in 0..tags.len()
            invariant
                tag_models(all@) == own + tag_models(tags@).take(i as int),
        {
            let ghost before = all@;
            let tag = tags[i].copy();
            all.push(tag);
            assert(tag_models(all@) =~= tag_models(before).push(tag@));
            assert(tag_models(tags@).take(i as int + 1) =~= tag_models(tags@).take(i as int).push(
                tags@[i as int]@,
            ));
        }
        proof {
            assert(tag_models(all@) =~= own + tag_models(tags@));
            if at >= self.neuron_tags@.len() {
                assert(own =~= Seq::empty());
                assert(tag_models(all@) =~= tag_models(tags@));
            }
        }
        self.put(uuid, all);
    }

    /// Count of neurons carrying tags. An entry without tags counts for nothing.
    pub fn tagged_neurons(&self) -> (r: usize)
        ensures
            r == self.neuron_tags@.filter(|e: (String, Vec<Tag>)| e.1@.len() > 0).len(),
    {
        let ghost carrying = |e: (String, Vec<Tag>)| e.1@.len() > 0;
        let ghost all = self.neuron_tags@;
        let mut count: usize = 0;
        proof {
            reveal(Seq::filter);
            assert(all.take(0).filter(carrying) =~= Seq::empty());
        }
        for i in 0..self.neuron_tags.len()
            invariant
                all == self.neuron_tags@,
                carrying == (|e: (String, Vec<Tag>)| e.1@.len() > 0),
                count == all.take(i as int).filter(carrying).len(),
                count <= i,
        {
            proof {
                reveal(Seq::filter);
                assert(all.take(i as int + 1).drop_last() =~= all.take(i as int));
            }
            if self.neuron_tags[i].1.len() > 0 {
                count = count + 1;
            }
        }
        assert(all.take(all.len() as int) =~= all);
        count
    }

    /// A neuron of a creature file with the tags that its uuid has here, in place
    /// of any that the file gives it.
    pub open spec fn tagged_neuron(&self, neuron: JsonModel) -> JsonModel {
        match neuron {
            JsonModel::Object(fields) => {
                let bare = fields.remove("tags"@);
                let tags = match uuid_in(neuron) {
                    Some(uuid) => self.tags_of(uuid),
                    None => None,
                };
                JsonModel::Object(
                    match tags {
                        Some(tags) => bare.insert("tags"@, tag_list(tags)),
                        None => bare,
                    },
                )
            },
            _ => neuron,
        }
    }

    /// A creature file without its identity, its lineage record and any tags of
    /// its own, and with the tags attached: creature-level tags when there are
    /// any, neuron tags to the neurons that it has.
    pub open spec fn attached(&self, creature: Map<Seq<char>, JsonModel>) -> Map<
        Seq<char>,
        JsonModel,
    > {
        let kept = creature.remove(LINEAGE_FIELD@).remove(IDENTITY_FIELD@).remove("tags"@);
        let tagged = if self.tags@.len() > 0 {
            kept.insert("tags"@, tag_list(tag_models(self.tags@)))
        } else {
            kept
        };
        match json::field(tagged, "neurons"@) {
            Some(JsonModel::List(neurons)) => tagged.insert(
                "neurons"@,
                JsonModel::List(neurons.map_values(|n: JsonModel| self.tagged_neuron(n))),
            ),
            _ => tagged,
        }
    }

    /// The tags of a neuron that is among the given ones; none when there is none
    /// or its entry is empty.
    pub open spec fn carried_tags(&self, neurons: Seq<JsonModel>, uuid: Seq<char>) -> Option<
        Seq<TagModel>,
    > {
        match self.tags_of(uuid) {
            Some(tags) => if carries(neurons, uuid) && tags.len() > 0 {
                Some(tags)
            } else {
                None
            },
            None => None,
        }
    }

    /// A creature file gives back the tags that were attached to it and no
    /// others: the creature's own, and those of every neuron that it has. Its
    /// identity and its lineage record are gone.
    pub open spec fn gives_back(
        &self,
        creature: Map<Seq<char>, JsonModel>,
        file: JsonModel,
    ) -> bool {
        let own = neurons_in(JsonModel::Object(creature));
        let neurons = neurons_in(file);
        &&& parsed(json::field(fields_in(file), "tags"@)) == tag_models(self.tags@)
        &&& forall|uuid: Seq<char>| #[trigger]
            source_tags(neurons, uuid, neurons.len() as int) == self.carried_tags(own, uuid)
        &&& !fields_in(file).dom().contains(LINEAGE_FIELD@)
        &&& !fields_in(file).dom().contains(IDENTITY_FIELD@)
    }

    /// The text of a creature file with creature-level and per-neuron tags
    /// attached, from its text without them. It can be read again when the
    /// creature could be, and then gives the tags back.
    pub fn serialize_with(&self, creature: &str, pretty: bool) -> (r: Result<String, String>)
        ensures
            match json::json_object_read(creature@) {
                Ok(fields) => match r {
                    Ok(text) => {
                        &&& text@ == if pretty {
                            json::json_pretty_text(JsonModel::Object(self.attached(fields)))
                        } else {
                            json::json_text(JsonModel::Object(self.attached(fields)))
                        }
                        &&& json::readable(
                            JsonModel::Object(fields),
                            json::READ_DEPTH as nat,
                        ) ==> json::json_read(text@) is Ok
                        &&& json::json_read(text@) matches Ok(file) ==> self.gives_back(
                            fields,
                            file,
                        )
                    },
                    Err(_) => false,
                },
                Err(complaint) => match r {
                    Ok(_) => false,
                    Err(text) => text@ == complaint,
                },
            },
    {
        match parse_object(creature) {
            Err(complaint) => Err(complaint),
            Ok(fields) => {
                let ghost own = json::object_of(fields@);
                let value = fold(Layer::Object(self.attach(fields)));
                let written = if pretty {
                    write_value_pretty(&value)
                } else {
                    write_value(&value)
                };
                proof {
                    let text = written->Ok_0@;
                    if json::readable(JsonModel::Object(own), json::READ_DEPTH as nat) {
                        attached_files_are_readable(*self, own);
                    }
                    if let Ok(file) = json::json_read(text) {
                        assert(json::alike(file, json::content(value), 6));
                        attached_tags_read_back(*self, own, file);
                    }
                }
                written
            },
        }
    }

    /// Attach the tags to the fields of a creature file.
    pub fn attach(&self, creature: Vec<(String, serde_json::Value)>) -> (r: Vec<
        (String, serde_json::Value),
    >)
        requires
            json::distinct_fields(creature@),
        ensures
            json::distinct_fields(r@),
            json::object_of(r@) == self.attached(json::object_of(creature@)),
    {
        let ghost all = json::object_of(creature@);
        let mut fields = creature;
        proof {
            reveal_strlit("tags");
            reveal_strlit("neurons");
            assert("tags"@.len() != "neurons"@.len());
        }
        let _ = take_field(&mut fields, LINEAGE_FIELD);
        let _ = take_field(&mut fields, IDENTITY_FIELD);
        let _ = take_field(&mut fields, "tags");
        if self.tags.len() > 0 {
            put_field(&mut fields, "tags", write_tags(&self.tags));
        }
        let ghost tagged = json::object_of(fields@);
        if let Some(value) = take_field(&mut fields, "neurons") {
            let layer = unfold(value);
            let neurons = match layer {
                Layer::List(neurons) => Layer::List(self.tag_all(neurons)),
                other => other,
            };
            put_field(&mut fields, "neurons", fold(neurons));
            assert(json::object_of(fields@) =~= self.attached(all));
        } else {
            assert(tagged.remove("neurons"@) =~= tagged);
        }
        fields
    }

    fn tag_all(&self, neurons: Vec<serde_json::Value>) -> (r: Vec<serde_json::Value>)
        ensures
            json::contents(r@) == json::contents(neurons@).map_values(
                |n: JsonModel| self.tagged_neuron(n),
            ),
    {
        let ghost models = json::contents(neurons@);
        let ghost wanted = models.map_values(|n: JsonModel| self.tagged_neuron(n));
        let mut out: Vec<serde_json::Value> = Vec::new();
        for neuron in it: neurons.into_iter()
            invariant
                it.seq() == neurons@,
                models == json::contents(neurons@),
                wanted == models.map_values(|n: JsonModel| self.tagged_neuron(n)),
                json::contents(out@) =~= wanted.take(it.index() as int),
        {
            let ghost before = out@;
            let ghost at = it.index() as int;
            assert(models[at] == json::content(neuron));
            out.push(self.tag_one(neuron));
            assert(json::contents(out@) =~= json::contents(before).push(wanted[at]));
            assert(wanted.take(at + 1) =~= wanted.take(at).push(wanted[at]));
        }
        assert(wanted.take(neurons@.len() as int) =~= wanted);
        out
    }

    fn tag_one(&self, neuron: serde_json::Value) -> (r: serde_json::Value)
        ensures
            json::content(r) == self.tagged_neuron(json::content(neuron)),
    {
        match unfold(neuron) {
            Layer::Object(mut fields) => {
                let ghost all = json::object_of(fields@);
                let mut at: usize = self.neuron_tags.len();
                if let Some(value) = take_field(&mut fields, "uuid") {
                    let layer = unfold(value);
                    if let Layer::Text(uuid) = &layer {
                        at = find_entry(&self.neuron_tags, uuid.as_str());
                    }
                    put_field(&mut fields, "uuid", fold(layer));
                }
                assert(json::object_of(fields@) =~= all);
                let _ = take_field(&mut fields, "tags");
                if at < self.neuron_tags.len() {
                    put_field(&mut fields, "tags", write_tags(&self.neuron_tags[at].1));
                }
                fold(Layer::Object(fields))
            },
            other => fold(other),
        }
    }
}

/// The tag list of a creature file.
pub open spec fn tag_list(tags: Seq<TagModel>) -> JsonModel {
    JsonModel::List(tags.map_values(|t: TagModel| tag_entry(t)))
}

/// An entry of a tag list.
pub open spec fn tag_entry(tag: TagModel) -> JsonModel {
    JsonModel::Object(
        map!["name"@ => JsonModel::Text(tag.name), "value"@ => JsonModel::Text(tag.value)],
    )
}

fn write_tag(tag: &Tag) -> (r: serde_json::Value)
    ensures
        json::content(r) == tag_entry(tag@),
{
    let mut fields: Vec<(String, serde_json::Value)> = Vec::new();
    put_field(&mut fields, "name", fold(Layer::Text(tag.name.clone())));
    put_field(&mut fields, "value", fold(Layer::Text(tag.value.clone())));
    assert(json::object_of(fields@) =~= map![
        "name"@ => JsonModel::Text(tag.name@),
        "value"@ => JsonModel::Text(tag.value@),
    ]);
    fold(Layer::Object(fields))
}

fn write_tags(tags: &Vec<Tag>) -> (r: serde_json::Value)
    ensures
        json::content(r) == tag_list(tag_models(tags@)),
{
    let ghost wanted = tag_models(tags@).map_values(|t: TagModel| tag_entry(t));
    let mut entries: Vec<serde_json::Value> = Vec::new();
    for i in 0..tags.len()
        invariant
            wanted == tag_models(tags@).map_values(|t: TagModel| tag_entry(t)),
            json::contents(entries@) =~= wanted.take(i as int),
    {
        let ghost before = entries@;
        entries.push(write_tag(&tags[i]));
        assert(json::contents(entries@) =~= json::contents(before).push(wanted[i as int]));
        assert(wanted.take(i as int + 1) =~= wanted.take(i as int).push(wanted[i as int]));
    }
    assert(wanted.take(tags@.len() as int) =~= wanted);
    fold(Layer::List(entries))
}

impl Default for CreatureMeta {
    /// No tags.
    fn default() -> (r: CreatureMeta)
        ensures
            r.tags@.len() == 0,
            r.neuron_tags@.len() == 0,
            r.well_formed(),
    {
        CreatureMeta { tags: Vec::new(), neuron_tags: Vec::new() }
    }
}

/// The lineage record of a creature file, which is not written back.
pub const LINEAGE_FIELD: &'static str = "memetic";

/// The identity of a creature file, which is not written back.
pub const IDENTITY_FIELD: &'static str = "uuid";

fn copy_tags(tags: &Vec<Tag>) -> (r: Vec<Tag>)
    ensures
        tag_models(r@) == tag_models(tags@),
{
    let mut out: Vec<Tag> = Vec::new();
    for i in 0..tags.len()
        invariant
            tag_models(out@) == tag_models(tags@).take(i as int),
    {
        let ghost before = out@;
        let tag = tags[i].copy();
        out.push(tag);
        assert(tag_models(out@) =~= tag_models(before).push(tag@));
        assert(tag_models(tags@).take(i as int + 1) =~= tag_models(tags@).take(i as int).push(
            tags@[i as int]@,
        ));
    }
    assert(tag_models(out@) =~= tag_models(tags@));
    out
}

proof fn tag_place_is_first(tags: Seq<TagModel>, name: Seq<char>, from: int)
    requires
        0 <= from <= tags.len(),
    ensures
        from <= tag_place(tags, name, from) <= tags.len(),
        tag_place(tags, name, from) < tags.len() ==> tags[tag_place(tags, name, from)].name
            == name,
        forall|k: int|
            from <= k < tag_place(tags, name, from) ==> (#[trigger] tags[k]).name != name,
    decreases tags.len() - from,
{
    if from < tags.len() && tags[from].name != name {
        tag_place_is_first(tags, name, from + 1);
    }
}

/// After an upsert the name has the value, every tag of another name is where it
/// was, and doing it again changes nothing.
pub proof fn upsert_sets_one_tag(tags: Seq<TagModel>, name: Seq<char>, value: Seq<char>)
    ensures
        tag_place(upserted(tags, name, value), name, 0) < upserted(tags, name, value).len(),
        upserted(tags, name, value)[tag_place(upserted(tags, name, value), name, 0)].value
            == value,
        forall|i: int|
            0 <= i < tags.len() && (#[trigger] tags[i]).name != name ==> upserted(
                tags,
                name,
                value,
            )[i] == tags[i],
        upserted(upserted(tags, name, value), name, value) == upserted(tags, name, value),
{
    let once = upserted(tags, name, value);
    tag_place_is_first(tags, name, 0);
    tag_place_is_first(once, name, 0);
    let at = tag_place(tags, name, 0);
    let again = tag_place(once, name, 0);
    assert(once[at].name == name);
    if again < at {
        assert(tags[again].name != name);
    }
    assert(again == at);
    assert(once.update(at, TagModel { name, value }) =~= once);
}

proof fn entry_reads_back(tag: TagModel, entry: JsonModel)
    requires
        json::alike(entry, tag_entry(tag), 2),
    ensures
        tag_in(entry) == Some(tag),
{
    reveal_strlit("name");
    reveal_strlit("value");
    assert("name"@.len() != "value"@.len());
    reveal_with_fuel(json::alike, 3);
    let fields = fields_in(entry);
    assert(fields.dom().contains("name"@) && fields.dom().contains("value"@));
    assert(json::alike(fields["name"@], JsonModel::Text(tag.name), 1));
    assert(json::alike(fields["value"@], JsonModel::Text(tag.value), 1));
}

proof fn first_entries_read_back(tags: Seq<TagModel>, entries: Seq<JsonModel>, n: int)
    requires
        0 <= n <= tags.len(),
        entries.len() == tags.len(),
        forall|i: int|
            0 <= i < tags.len() ==> json::alike(#[trigger] entries[i], tag_entry(tags[i]), 2),
    ensures
        first_tags(entries, n) == tags.take(n),
    decreases n,
{
    if n > 0 {
        first_entries_read_back(tags, entries, n - 1);
        entry_reads_back(tags[n - 1], entries[n - 1]);
        assert(tags.take(n) =~= tags.take(n - 1).push(tags[n - 1]));
    } else {
        assert(tags.take(0) =~= Seq::empty());
    }
}

proof fn list_reads_back(tags: Seq<TagModel>, list: JsonModel)
    requires
        json::alike(list, tag_list(tags), 3),
    ensures
        parsed(Some(list)) == tags,
{
    reveal_with_fuel(json::alike, 2);
    let entries = elements_in(Some(list));
    let wanted = tags.map_values(|t: TagModel| tag_entry(t));
    assert forall|i: int| 0 <= i < tags.len() implies json::alike(
        #[trigger] entries[i],
        tag_entry(tags[i]),
        2,
    ) by {
        assert(wanted[i] == tag_entry(tags[i]));
    }
    first_entries_read_back(tags, entries, tags.len() as int);
    assert(tags.take(tags.len() as int) =~= tags);
}

/// A neuron keeps its uuid, and carries the tags that it has here and no others.
proof fn tagged_neuron_tells(meta: CreatureMeta, neuron: JsonModel, read: JsonModel)
    requires
        json::alike(read, meta.tagged_neuron(neuron), 4),
    ensures
        uuid_in(read) == uuid_in(neuron),
        uuid_in(neuron) matches Some(uuid) ==> neuron_tags_in(read) == match meta.tags_of(uuid) {
            Some(tags) => tags,
            None => Seq::empty(),
        },
{
    reveal_strlit("uuid");
    reveal_strlit("tags");
    assert("uuid"@[0] != "tags"@[0]);
    reveal_with_fuel(json::alike, 3);
    let made = fields_in(meta.tagged_neuron(neuron));
    let fields = fields_in(read);
    assert(fields.dom() =~= made.dom());
    if fields.dom().contains("uuid"@) {
        assert(json::alike(fields["uuid"@], made["uuid"@], 3));
    }
    if let Some(uuid) = uuid_in(neuron) {
        if let Some(tags) = meta.tags_of(uuid) {
            assert(json::alike(fields["tags"@], made["tags"@], 3));
            list_reads_back(tags, fields["tags"@]);
        } else {
            assert(!made.dom().contains("tags"@));
            assert(first_tags(Seq::empty(), 0) =~= Seq::empty());
        }
    }
}

/// Some neuron has the uuid.
pub open spec fn carries(neurons: Seq<JsonModel>, uuid: Seq<char>) -> bool {
    exists|i: int| 0 <= i < neurons.len() && uuid_in(#[trigger] neurons[i]) == Some(uuid)
}

proof fn tagged_neurons_read_back(
    meta: CreatureMeta,
    before: Seq<JsonModel>,
    after: Seq<JsonModel>,
    uuid: Seq<char>,
    n: int,
)
    requires
        0 <= n <= before.len(),
        after.len() == before.len(),
        forall|i: int|
            0 <= i < before.len() ==> json::alike(
                #[trigger] after[i],
                meta.tagged_neuron(before[i]),
                4,
            ),
    ensures
        source_tags(after, uuid, n) == meta.carried_tags(before.take(n), uuid),
    decreases n,
{
    if n > 0 {
        tagged_neurons_read_back(meta, before, after, uuid, n - 1);
        tagged_neuron_tells(meta, before[n - 1], after[n - 1]);
        let then = before.take(n - 1);
        let now = before.take(n);
        if carries(then, uuid) {
            let i = choose|i: int| 0 <= i < then.len() && uuid_in(#[trigger] then[i]) == Some(uuid);
            assert(now[i] == then[i]);
        }
        if uuid_in(before[n - 1]) == Some(uuid) {
            assert(now[n - 1] == before[n - 1]);
        } else if carries(now, uuid) {
            let i = choose|i: int| 0 <= i < now.len() && uuid_in(#[trigger] now[i]) == Some(uuid);
            assert(then[i] == now[i]);
        }
    }
}

/// A creature file that tags were attached to gives them back, even when
/// writing and reading it changed its numbers.
pub proof fn attached_tags_read_back(
    meta: CreatureMeta,
    creature: Map<Seq<char>, JsonModel>,
    file: JsonModel,
)
    requires
        json::alike(file, JsonModel::Object(meta.attached(creature)), 6),
    ensures
        meta.gives_back(creature, file),
{
    reveal_strlit("tags");
    reveal_strlit("neurons");
    reveal_strlit("memetic");
    reveal_strlit("uuid");
    assert("tags"@.len() != "neurons"@.len());
    assert("tags"@.len() != LINEAGE_FIELD@.len());
    assert("neurons"@[0] != LINEAGE_FIELD@[0]);
    assert("neurons"@.len() != IDENTITY_FIELD@.len());
    assert("tags"@[0] != IDENTITY_FIELD@[0]);
    reveal_with_fuel(json::alike, 3);
    let made = meta.attached(creature);
    let fields = fields_in(file);
    assert(fields.dom() =~= made.dom());
    if meta.tags@.len() > 0 {
        assert(json::alike(fields["tags"@], made["tags"@], 5));
        alike_at_less(fields["tags"@], made["tags"@], 5, 3);
        list_reads_back(tag_models(meta.tags@), fields["tags"@]);
    } else {
        assert(!made.dom().contains("tags"@));
        assert(tag_models(meta.tags@) =~= first_tags(Seq::empty(), 0));
    }
    let before = neurons_in(JsonModel::Object(creature));
    let after = neurons_in(file);
    if fields.dom().contains("neurons"@) {
        assert(json::alike(fields["neurons"@], made["neurons"@], 5));
    }
    assert(after.len() == before.len());
    assert forall|i: int| 0 <= i < before.len() implies json::alike(
        #[trigger] after[i],
        meta.tagged_neuron(before[i]),
        4,
    ) by {
        let tagged = before.map_values(|m: JsonModel| meta.tagged_neuron(m));
        assert(made["neurons"@] == JsonModel::List(tagged));
        assert(tagged[i] == meta.tagged_neuron(before[i]));
    }
    assert(before.take(before.len() as int) =~= before);
    assert forall|uuid: Seq<char>| #[trigger]
        source_tags(after, uuid, after.len() as int) == meta.carried_tags(before, uuid) by {
        tagged_neurons_read_back(meta, before, after, uuid, before.len() as int);
    }
}

/// What is read off a written creature file is what was written: the same
/// creature-level tags, and of the neuron tags those of the neurons that the
/// creature has.
pub proof fn written_tags_read_back(
    meta: CreatureMeta,
    creature: Map<Seq<char>, JsonModel>,
    file: JsonModel,
    read: CreatureMeta,
)
    requires
        meta.gives_back(creature, file),
        read.tells(file),
    ensures
        tag_models(read.tags@) == tag_models(meta.tags@),
        forall|uuid: Seq<char>| #[trigger]
            read.tags_of(uuid) == meta.carried_tags(
                neurons_in(JsonModel::Object(creature)),
                uuid,
            ),
{
    let own = neurons_in(JsonModel::Object(creature));
    let neurons = neurons_in(file);
    assert forall|uuid: Seq<char>| #[trigger]
        read.tags_of(uuid) == meta.carried_tags(own, uuid) by {
        assert(source_tags(neurons, uuid, neurons.len() as int) == meta.carried_tags(own, uuid));
    }
}

proof fn tag_lists_are_readable(tags: Seq<TagModel>, n: nat)
    requires
        n >= 2,
    ensures
        json::readable(tag_list(tags), n),
{
    let entries = tags.map_values(|t: TagModel| tag_entry(t));
    assert forall|i: int| 0 <= i < entries.len() implies json::readable(
        #[trigger] entries[i],
        (n - 1) as nat,
    ) by {
        assert(entries[i] == tag_entry(tags[i]));
        reveal_with_fuel(json::readable, 2);
    }
}

proof fn fields_are_readable(fields: Map<Seq<char>, JsonModel>, n: nat)
    requires
        json::readable(JsonModel::Object(fields), n),
    ensures
        n > 0,
        forall|k: Seq<char>|
            fields.dom().contains(k) ==> json::readable(#[trigger] fields[k], (n - 1) as nat),
{
    assert forall|k: Seq<char>| fields.dom().contains(k) implies json::readable(
        #[trigger] fields[k],
        (n - 1) as nat,
    ) by {
        let inner = JsonModel::Object(fields)->Object_0;
        assert(inner == fields);
        assert(inner.dom().contains(k));
        assert(json::readable(inner[k], (n - 1) as nat));
    }
}

/// Attaching tags to a creature file that can be read again leaves one that can.
pub proof fn attached_files_are_readable(meta: CreatureMeta, creature: Map<Seq<char>, JsonModel>)
    requires
        json::readable(JsonModel::Object(creature), json::READ_DEPTH as nat),
    ensures
        json::readable(JsonModel::Object(meta.attached(creature)), json::READ_DEPTH as nat),
{
    let made = meta.attached(creature);
    reveal_strlit("tags");
    reveal_strlit("neurons");
    assert("tags"@.len() != "neurons"@.len());
    fields_are_readable(creature, 100);
    assert forall|k: Seq<char>| made.dom().contains(k) implies json::readable(
        #[trigger] made[k],
        99,
    ) by {
        if k == "tags"@ {
            tag_lists_are_readable(tag_models(meta.tags@), 99);
        } else {
            assert(creature.dom().contains(k));
            assert(json::readable(creature[k], 99));
            if k == "neurons"@ {
                if let JsonModel::List(neurons) = creature[k] {
                    let tagged = neurons.map_values(|n: JsonModel| meta.tagged_neuron(n));
                    assert(made[k] == JsonModel::List(tagged));
                    assert forall|i: int| 0 <= i < tagged.len() implies json::readable(
                        #[trigger] tagged[i],
                        98,
                    ) by {
                        assert(tagged[i] == meta.tagged_neuron(neurons[i]));
                        assert(json::readable(neurons[i], 98));
                        tagged_neurons_are_readable(meta, neurons[i]);
                    }
                }
            }
        }
    }
}

proof fn tagged_neurons_are_readable(meta: CreatureMeta, neuron: JsonModel)
    requires
        json::readable(neuron, 98),
    ensures
        json::readable(meta.tagged_neuron(neuron), 98),
{
    if let JsonModel::Object(fields) = neuron {
        let made = fields_in(meta.tagged_neuron(neuron));
        assert forall|k: Seq<char>| made.dom().contains(k) implies json::readable(
            #[trigger] made[k],
            97,
        ) by {
            if k == "tags"@ {
                if let Some(uuid) = uuid_in(neuron) {
                    if let Some(tags) = meta.tags_of(uuid) {
                        tag_lists_are_readable(tags, 97);
                    }
                }
            } else {
                assert(json::readable(fields[k], 97));
            }
        }
    }
}

proof fn alike_at_less(a: JsonModel, b: JsonModel, n: nat, m: nat)
    requires
        json::alike(a, b, n),
        m <= n,
    ensures
        json::alike(a, b, m),
    decreases n,
{
    if m > 0 {
        match (a, b) {
            (JsonModel::List(x), JsonModel::List(y)) => {
                assert forall|i: int| 0 <= i < x.len() implies json::alike(
                    #[trigger] x[i],
                    y[i],
                    (m - 1) as nat,
                ) by {
                    alike_at_less(x[i], y[i], (n - 1) as nat, (m - 1) as nat);
                }
            },
            (JsonModel::Object(f), JsonModel::Object(g)) => {
                assert forall|k: Seq<char>| f.dom().contains(k) implies json::alike(
                    #[trigger] f[k],
                    g[k],
                    (m - 1) as nat,
                ) by {
                    alike_at_less(f[k], g[k], (n - 1) as nat, (m - 1) as nat);
                }
            },
            _ => {},
        }
    }
}

/// Attaching tags touches no field but the tags, the neurons, the identity and the
/// lineage record.
pub proof fn other_fields_stay(
    meta: CreatureMeta,
    creature: Map<Seq<char>, JsonModel>,
    name: Seq<char>,
)
    requires
        name != "tags"@,
        name != "neurons"@,
        name != LINEAGE_FIELD@,
        name != IDENTITY_FIELD@,
    ensures
        json::field(meta.attached(creature), name) == json::field(creature, name),
{
}

/// Of neurons that share a uuid the last one with tags is believed: its tags are
/// those of the uuid, and there are none when no such neuron has any.
pub proof fn the_last_tagged_neuron_tells(neurons: Seq<JsonModel>, uuid: Seq<char>, n: int)
    requires
        0 <= n <= neurons.len(),
    ensures
        match source_tags(neurons, uuid, n) {
            Some(tags) => exists|i: int|
                {
                    &&& 0 <= i < n
                    &&& uuid_in(#[trigger] neurons[i]) == Some(uuid)
                    &&& neuron_tags_in(neurons[i]) == tags
                    &&& tags.len() > 0
                    &&& forall|j: int|
                        i < j < n && uuid_in(#[trigger] neurons[j]) == Some(uuid)
                            ==> neuron_tags_in(neurons[j]).len() == 0
                },
            None => forall|i: int|
                0 <= i < n && uuid_in(#[trigger] neurons[i]) == Some(uuid) ==> neuron_tags_in(
                    neurons[i],
                ).len() == 0,
        },
    decreases n,
{
    if n > 0 {
        if uuid_in(neurons[n - 1]) == Some(uuid) && neuron_tags_in(neurons[n - 1]).len() > 0 {
            assert(neurons[n - 1] == neurons[n - 1]);
        } else {
            the_last_tagged_neuron_tells(neurons, uuid, n - 1);
        }
    }
}

/// An entry of a tag list counts when it is an object whose name is a string; its
/// value is kept as it is when it is a string, and is empty when it has none.
pub proof fn named_entries_are_tags(entry: JsonModel)
    ensures
        tag_in(entry) is Some <==> (entry matches JsonModel::Object(fields) && fields.dom().contains(
            "name"@,
        ) && fields["name"@] is Text),
        tag_in(entry) matches Some(tag) ==> {
            let fields = entry->Object_0;
            &&& fields["name"@] == JsonModel::Text(tag.name)
            &&& !fields.dom().contains("value"@) ==> tag.value.len() == 0
            &&& fields.dom().contains("value"@) && fields["value"@] is Text ==> fields["value"@]
                == JsonModel::Text(tag.value)
        },
{
}

/// Every entry that is a tag is read, in its place, and no other.
pub proof fn every_tag_is_read(entries: Seq<JsonModel>, n: int)
    requires
        0 <= n <= entries.len(),
    ensures
        first_tags(entries, n).len() == entries.take(n).filter(
            |e: JsonModel| tag_in(e) is Some,
        ).len(),
        forall|k: int|
            0 <= k < first_tags(entries, n).len() ==> tag_in(
                entries.take(n).filter(|e: JsonModel| tag_in(e) is Some)[k],
            ) == Some(#[trigger] first_tags(entries, n)[k]),
    decreases n,
{
    reveal(Seq::filter);
    if n > 0 {
        every_tag_is_read(entries, n - 1);
        assert(entries.take(n).drop_last() =~= entries.take(n - 1));
        assert(entries.take(n).last() == entries[n - 1]);
    }
}

/// Setting two tags of different names leaves both set.
pub proof fn tags_of_other_names_stay(
    tags: Seq<TagModel>,
    name: Seq<char>,
    value: Seq<char>,
    other: Seq<char>,
    text: Seq<char>,
)
    requires
        name != other,
    ensures
        ({
            let after = upserted(upserted(tags, name, value), other, text);
            &&& exists|i: int|
                0 <= i < after.len() && #[trigger] after[i] == (TagModel { name, value })
            &&& exists|i: int|
                0 <= i < after.len() && #[trigger] after[i] == (TagModel {
                    name: other,
                    value: text,
                })
            &&& forall|i: int|
                0 <= i < tags.len() && (#[trigger] tags[i]).name != name && tags[i].name != other
                    ==> after[i] == tags[i]
        }),
{
    let first = upserted(tags, name, value);
    let after = upserted(first, other, text);
    upsert_sets_one_tag(tags, name, value);
    upsert_sets_one_tag(first, other, text);
    tag_place_is_first(tags, name, 0);
    tag_place_is_first(first, name, 0);
    tag_place_is_first(first, other, 0);
    tag_place_is_first(after, other, 0);
    let at = tag_place(first, name, 0);
    assert(first[at] == TagModel { name, value });
    assert(after[at] == first[at]);
    let there = tag_place(after, other, 0);
    assert(after[there] == TagModel { name: other, value: text });
    assert forall|i: int|
        0 <= i < tags.len() && (#[trigger] tags[i]).name != name && tags[i].name
            != other implies after[i] == tags[i] by {
        assert(first[i] == tags[i]);
    }
}

} // verus!
