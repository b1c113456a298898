//! Entries: the leaf credential records of the vault, together with the
//! secure-wipe policy for their sensitive fields.

use vstd::prelude::*;

use crate::trusted::{fresh_id, now_timestamp, wipe_string};
use crate::util::{chars_equal, clone_opt_string, clone_string_vec, opt_str_view};

verus! {

/// The mathematical value of a [`CustomField`].
#[verifier::ext_equal]
pub struct CustomFieldView {
    pub key: Seq<char>,
    pub value: Seq<char>,
    pub protected: bool,
}

/// A custom key/value field of an entry.  The value is sensitive exactly
/// when `protected` is set, and is then wiped with the entry's secrets.
#[derive(Debug)]
pub struct CustomField {
    pub key: String,
    pub value: String,
    pub protected: bool,
}

impl View for CustomField {
    type V = CustomFieldView;

    open spec fn view(&self) -> CustomFieldView {
        CustomFieldView { key: self.key@, value: self.value@, protected: self.protected }
    }
}

impl Clone for CustomField {
    fn clone(&self) -> (r: Self)
        ensures
            r@ == self@,
    {
        let r = CustomField {
            key: self.key.clone(),
            value: self.value.clone(),
            protected: self.protected,
        };
        assert(r@ =~= self@);
        r
    }
}

/// The views of a sequence of custom fields.
pub open spec fn fields_view(s: Seq<CustomField>) -> Seq<CustomFieldView> {
    s.map_values(|f: CustomField| f@)
}

/// A custom-field key the container keeps for the standard fields;
/// custom fields may not use these.
pub open spec fn reserved_key(k: Seq<char>) -> bool {
    ||| k == "Title"@
    ||| k == "UserName"@
    ||| k == "Password"@
    ||| k == "URL"@
    ||| k == "Notes"@
    ||| k == "otp"@
}

/// A usable custom-field list: no key is reserved, and no two fields
/// share a key.
pub open spec fn valid_custom_fields(fs: Seq<CustomFieldView>) -> bool {
    &&& forall|i: int| 0 <= i < fs.len() ==> !reserved_key((#[trigger] fs[i]).key)
    &&& forall|i: int, j: int|
        0 <= i < fs.len() && 0 <= j < fs.len() && (#[trigger] fs[i].key) == (#[trigger] fs[j].key)
            ==> i == j
}

/// Decide [`valid_custom_fields`] for a field list.
pub fn check_custom_fields(fields: &Vec<CustomField>) -> (r: bool)
    ensures
        r == valid_custom_fields(fields_view(fields@)),
{
    let ghost fs = fields_view(fields@);
    let n = fields.len();
    let mut i: usize = 0;
    while i < n
        invariant
            fs == fields_view(fields@),
            n == fields@.len(),
            i <= n,
            forall|a: int| 0 <= a < i ==> !reserved_key((#[trigger] fs[a]).key),
            forall|a: int, b: int|
                0 <= a < i && 0 <= b < i && a != b ==> (#[trigger] fs[a].key) != (
                #[trigger] fs[b].key),
        decreases n - i,
    {
        let k = fields[i].key.as_str();
        if chars_equal(k, "Title") || chars_equal(k, "UserName") || chars_equal(k, "Password")
            || chars_equal(k, "URL") || chars_equal(k, "Notes") || chars_equal(k, "otp") {
            proof {
                assert(fs[i as int].key == fields@[i as int]@.key);
                assert(reserved_key(fs[i as int].key));
            }
            return false;
        }
        let mut j: usize = 0;
        while j < i
            invariant
                fs == fields_view(fields@),
                n == fields@.len(),
                j <= i < n,
                forall|b: int| 0 <= b < j ==> (#[trigger] fs[b].key) != fs[i as int].key,
            decreases i - j,
        {
            if chars_equal(fields[j].key.as_str(), fields[i].key.as_str()) {
                proof {
                    assert(fs[j as int].key == fs[i as int].key);
                    assert(j as int != i as int);
                }
                return false;
            }
            j = j + 1;
        }
        i = i + 1;
    }
    proof {
        assert forall|a: int, b: int|
            0 <= a < fs.len() && 0 <= b < fs.len() && (#[trigger] fs[a].key) == (
        #[trigger] fs[b].key) implies a == b by {
            if a != b {
                assert(fs[a].key != fs[b].key);
            }
        }
    }
    true
}

/// The mathematical value of an [`Entry`]: every string as its character
/// sequence, timestamps as Unix seconds.
#[verifier::ext_equal]
pub struct EntryView {
    pub id: Seq<char>,
    pub group_id: Seq<char>,
    pub title: Seq<char>,
    pub username: Seq<char>,
    pub password: Seq<char>,
    pub url: Seq<char>,
    pub notes: Seq<char>,
    pub tags: Seq<Seq<char>>,
    pub totp_secret: Option<Seq<char>>,
    pub custom_fields: Seq<CustomFieldView>,
    pub created_at: i64,
    pub modified_at: i64,
    pub accessed_at: i64,
    pub expires_at: Option<i64>,
    pub is_favorite: bool,
}

/// `e` with its sensitive material blanked: the password empty, the
/// one-time-password seed gone, every protected custom value empty.
pub open spec fn wiped_view(e: EntryView) -> EntryView {
    EntryView {
        password: Seq::<char>::empty(),
        totp_secret: Option::None,
        custom_fields: e.custom_fields.map_values(
            |f: CustomFieldView|
                if f.protected {
                    CustomFieldView { value: Seq::<char>::empty(), ..f }
                } else {
                    f
                },
        ),
        ..e
    }
}

/// A credential record.
#[derive(Debug)]
pub struct Entry {
    /// Unique identifier, immutable after creation.
    pub id: String,
    /// Identifier of the owning group.
    pub group_id: String,
    /// Title.
    pub title: String,
    /// Username.
    pub username: String,
    /// Password; sensitive, wiped on destruction.
    pub password: String,
    /// URL.
    pub url: String,
    /// Free-form notes.
    pub notes: String,
    /// Tags; insertion order carries no meaning.
    pub tags: Vec<String>,
    /// One-time-password seed, if any; sensitive, wiped on destruction.
    pub totp_secret: Option<String>,
    /// Custom fields, in order.
    pub custom_fields: Vec<CustomField>,
    /// Creation time, Unix seconds.
    pub created_at: i64,
    /// Last modification time, Unix seconds.
    pub modified_at: i64,
    /// Last access time, Unix seconds.
    pub accessed_at: i64,
    /// Expiry time, Unix seconds, if any.
    pub expires_at: Option<i64>,
    /// Whether this entry is marked as a favorite.
    pub is_favorite: bool,
}

impl View for Entry {
    type V = EntryView;

    open spec fn view(&self) -> EntryView {
        EntryView {
            id: self.id@,
            group_id: self.group_id@,
            title: self.title@,
            username: self.username@,
            password: self.password@,
            url: self.url@,
            notes: self.notes@,
            tags: self.tags.deep_view(),
            totp_secret: opt_str_view(self.totp_secret),
            custom_fields: fields_view(self.custom_fields@),
            created_at: self.created_at,
            modified_at: self.modified_at,
            accessed_at: self.accessed_at,
            expires_at: self.expires_at,
            is_favorite: self.is_favorite,
        }
    }
}

/// Clone a vector of custom fields, preserving every element's view.
fn clone_fields(v: &Vec<CustomField>) -> (r: Vec<CustomField>)
    ensures
        fields_view(r@) == fields_view(v@),
{
    let mut r: Vec<CustomField> = Vec::new();
    let mut i: usize = 0;
    while i < v.len()
        invariant
            i <= v@.len(),
            r@.len() == i,
            forall|j: int| 0 <= j < i ==> r@[j]@ == v@[j]@,
        decreases v@.len() - i,
    {
        r.push(v[i].clone());
        i = i + 1;
    }
    assert(fields_view(r@) =~= fields_view(v@));
    r
}

impl Clone for Entry {
    fn clone(&self) -> (r: Self)
        ensures
            r@ == self@,
    {
        let r = Entry {
            id: self.id.clone(),
            group_id: self.group_id.clone(),
            title: self.title.clone(),
            username: self.username.clone(),
            password: self.password.clone(),
            url: self.url.clone(),
            notes: self.notes.clone(),
            tags: clone_string_vec(&self.tags),
            totp_secret: clone_opt_string(&self.totp_secret),
            custom_fields: clone_fields(&self.custom_fields),
            created_at: self.created_at,
            modified_at: self.modified_at,
            accessed_at: self.accessed_at,
            expires_at: self.expires_at,
            is_favorite: self.is_favorite,
        };
        assert(r@ =~= self@);
        r
    }
}

impl Entry {
    /// Create a new entry with a fresh identifier under the given group.
    /// All three timestamps are set to the same current instant; every
    /// optional or collection field starts empty.
    pub fn new(title: String, group_id: String) -> (e: Entry)
        ensures
            e@.id.len() == 36,
            e@.group_id == group_id@,
            e@.title == title@,
            e@.username == Seq::<char>::empty(),
            e@.password == Seq::<char>::empty(),
            e@.url == Seq::<char>::empty(),
            e@.notes == Seq::<char>::empty(),
            e@.tags == Seq::<Seq<char>>::empty(),
            e@.totp_secret is None,
            e@.custom_fields == Seq::<CustomFieldView>::empty(),
            e@.created_at == e@.modified_at,
            e@.modified_at == e@.accessed_at,
            e@.expires_at is None,
            !e@.is_favorite,
    {
        let now = now_timestamp();
        let e = Entry {
            id: fresh_id(),
            group_id,
            title,
            username: String::new(),
            password: String::new(),
            url: String::new(),
            notes: String::new(),
            tags: Vec::new(),
            totp_secret: Option::None,
            custom_fields: Vec::new(),
            created_at: now,
            modified_at: now,
            accessed_at: now,
            expires_at: Option::None,
            is_favorite: false,
        };
        assert(e@.tags =~= Seq::<Seq<char>>::empty());
        assert(e@.custom_fields =~= Seq::<CustomFieldView>::empty());
        e
    }

    /// Update the modification timestamp to the current instant; every
    /// other field is left untouched.
    pub fn touch(&mut self)
        ensures
            final(self)@ == (EntryView { modified_at: final(self)@.modified_at, ..old(self)@ }),
    {
        self.modified_at = now_timestamp();
    }

    /// Update the access timestamp to the current instant; every other
    /// field is left untouched.
    pub fn mark_accessed(&mut self)
        ensures
            final(self)@ == (EntryView { accessed_at: final(self)@.accessed_at, ..old(self)@ }),
    {
        self.accessed_at = now_timestamp();
    }

    /// Whether the entry has expired at time `now`: true exactly when an
    /// expiry time is set and lies strictly before `now`.
    pub fn is_expired_at(&self, now: i64) -> (r: bool)
        ensures
            r == match self@.expires_at {
                Option::Some(t) => t < now,
                Option::None => false,
            },
    {
        match self.expires_at {
            Option::Some(t) => t < now,
            Option::None => false,
        }
    }

    /// Whether the entry has expired at the current instant.  An entry
    /// without an expiry time is never expired.
    pub fn is_expired(&self) -> (r: bool)
        ensures
            self@.expires_at is None ==> !r,
    {
        let now = now_timestamp();
        self.is_expired_at(now)
    }

    /// Blank the sensitive material in place: the password, the
    /// one-time-password seed and every protected custom value are
    /// overwritten with zeros before release.
    pub fn wipe_secrets(&mut self)
        ensures
            final(self)@ == wiped_view(old(self)@),
    {
        wipe_string(&mut self.password);
        match &mut self.totp_secret {
            Option::Some(s) => {
                wipe_string(s);
            },
            Option::None => {},
        }
        self.totp_secret = Option::None;
        let n = self.custom_fields.len();
        let mut i: usize = 0;
        while i < n
            invariant
                i <= n,
                n == self.custom_fields@.len(),
                self.password@ == Seq::<char>::empty(),
                self.totp_secret is None,
                self.id == old(self).id,
                self.group_id == old(self).group_id,
                self.title == old(self).title,
                self.username == old(self).username,
                self.url == old(self).url,
                self.notes == old(self).notes,
                self.tags == old(self).tags,
                self.created_at == old(self).created_at,
                self.modified_at == old(self).modified_at,
                self.accessed_at == old(self).accessed_at,
                self.expires_at == old(self).expires_at,
                self.is_favorite == old(self).is_favorite,
                forall|j: int|
                    0 <= j < i ==> self.custom_fields@[j]@ == (if old(
                        self,
                    ).custom_fields@[j]@.protected {
                        CustomFieldView {
                            value: Seq::<char>::empty(),
                            ..old(self).custom_fields@[j]@
                        }
                    } else {
                        old(self).custom_fields@[j]@
                    }),
                forall|j: int|
                    i <= j < n ==> self.custom_fields@[j] == old(self).custom_fields@[j],
            decreases n - i,
    {
            if self.custom_fields[i].protected {
                let f = &mut self.custom_fields[i];
                wipe_string(&mut f.value);
            }
            i = i + 1;
        }
        assert(final(self)@ =~= wiped_view(old(self)@));
    }
}

} // verus!
