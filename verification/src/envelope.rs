//! The envelope carried by one inbound text frame, and its ghost model.
//!
//! An envelope may carry two independent notification shapes: a "direct"
//! shape (`message`, a ready-made title/content pair) and a "keyed" shape
//! (`data_payload`, an ordered list of key/value entries from which title
//! and body are looked up by key, first match winning). Either, neither,
//! or both may be present.

use vstd::prelude::*;
use vstd::string::StrSliceExecFns;

verus! {

/// One key/value entry of the keyed payload shape.
pub struct NotificationPayload {
    pub key: String,
    pub value: String,
}

/// The direct shape: a ready-made title and body.
pub struct NotificationMessage {
    pub title: String,
    pub content: String,
}

/// The decoded form of one inbound text frame.
pub struct NotificationData {
    pub target_app_id: String,
    pub message: Option<NotificationMessage>,
    pub data_payload: Option<Vec<NotificationPayload>>,
}

/// A resolved notification ready for the sink; either field may be absent,
/// and the sink displays whatever is present.
pub struct NotificationRequest {
    pub title: Option<String>,
    pub body: Option<String>,
}

/// Ghost model of one key/value entry.
pub ghost struct PayloadModel {
    pub key: Seq<char>,
    pub value: Seq<char>,
}

/// Ghost model of the direct shape.
pub ghost struct MessageModel {
    pub title: Seq<char>,
    pub content: Seq<char>,
}

/// Ghost model of a whole envelope.
pub ghost struct DataModel {
    pub target_app_id: Seq<char>,
    pub message: Option<MessageModel>,
    pub data_payload: Option<Seq<PayloadModel>>,
}

/// Ghost model of a resolved notification.
pub ghost struct RequestModel {
    pub title: Option<Seq<char>>,
    pub body: Option<Seq<char>>,
}

impl View for NotificationPayload {
    type V = PayloadModel;

    open spec fn view(&self) -> PayloadModel {
        PayloadModel { key: self.key@, value: self.value@ }
    }
}

impl DeepView for NotificationPayload {
    type V = PayloadModel;

    open spec fn deep_view(&self) -> PayloadModel {
        self.view()
    }
}

impl View for NotificationMessage {
    type V = MessageModel;

    open spec fn view(&self) -> MessageModel {
        MessageModel { title: self.title@, content: self.content@ }
    }
}

impl DeepView for NotificationMessage {
    type V = MessageModel;

    open spec fn deep_view(&self) -> MessageModel {
        self.view()
    }
}

impl View for NotificationData {
    type V = DataModel;

    open spec fn view(&self) -> DataModel {
        DataModel {
            target_app_id: self.target_app_id@,
            message: match self.message {
                Some(m) => Some(m@),
                None => None,
            },
            data_payload: match self.data_payload {
                Some(v) => Some(v.deep_view()),
                None => None,
            },
        }
    }
}

impl DeepView for NotificationData {
    type V = DataModel;

    open spec fn deep_view(&self) -> DataModel {
        self.view()
    }
}

impl View for NotificationRequest {
    type V = RequestModel;

    open spec fn view(&self) -> RequestModel {
        RequestModel {
            title: match self.title {
                Some(t) => Some(t@),
                None => None,
            },
            body: match self.body {
                Some(b) => Some(b@),
                None => None,
            },
        }
    }
}

impl DeepView for NotificationRequest {
    type V = RequestModel;

    open spec fn deep_view(&self) -> RequestModel {
        self.view()
    }
}

/// Value of the first entry whose key matches, in sequence order; later
/// duplicates are ignored, and absence of a match is `None`.
pub open spec fn first_value(entries: Seq<PayloadModel>, key: Seq<char>) -> Option<Seq<char>>
    decreases entries.len(),
{
    if entries.len() == 0 {
        None
    } else if entries.first().key == key {
        Some(entries.first().value)
    } else {
        first_value(entries.drop_first(), key)
    }
}

impl DataModel {
    /// The keyed entries of the envelope, empty when the list is absent.
    pub open spec fn entries(&self) -> Seq<PayloadModel> {
        match self.data_payload {
            Some(s) => s,
            None => Seq::empty(),
        }
    }
}

/// Character-for-character string equality, stated over the views.
pub fn str_eq(a: &str, b: &str) -> (r: bool)
    ensures
        r == (a@ == b@),
{
    let alen = a.unicode_len();
    let blen = b.unicode_len();
    if alen != blen {
        return false;
    }
    let mut i: usize = 0;
    while i < alen
        invariant
            alen == a@.len(),
            alen == b@.len(),
            i <= alen,
            forall|j: int| 0 <= j < i ==> a@[j] == b@[j],
        decreases alen - i,
    {
        if a.get_char(i) != b.get_char(i) {
            return false;
        }
        i += 1;
    }
    proof {
        assert(a@ =~= b@);
    }
    true
}

proof fn lemma_first_value_step(entries: Seq<PayloadModel>, key: Seq<char>, i: int)
    requires
        0 <= i < entries.len(),
    ensures
        first_value(entries.skip(i), key) == (if entries[i].key == key {
            Some(entries[i].value)
        } else {
            first_value(entries.skip(i + 1), key)
        }),
{
    assert(entries.skip(i).first() == entries[i]);
    assert(entries.skip(i).drop_first() =~= entries.skip(i + 1));
}

impl NotificationData {
    /// First value stored under `key` in the keyed payload: the first
    /// matching entry in sequence order, or `None` when no entry matches
    /// or the payload list is absent.
    pub fn get_payload(&self, key: &str) -> (r: Option<&String>)
        ensures
            match r {
                Some(v) => first_value(self@.entries(), key@) == Some(v@),
                None => first_value(self@.entries(), key@) is None,
            },
    {
        if let Some(payload) = &self.data_payload {
            proof {
                assert(payload.deep_view().skip(0) =~= payload.deep_view());
            }
            let n = payload.len();
            let mut i: usize = 0;
            while i < n
                invariant
                    n == payload.len(),
                    i <= n,
                    self@.entries() == payload.deep_view(),
                    first_value(self@.entries(), key@) == first_value(
                        payload.deep_view().skip(i as int),
                        key@,
                    ),
                decreases n - i,
            {
                proof {
                    lemma_first_value_step(payload.deep_view(), key@, i as int);
                }
                if str_eq(payload[i].key.as_str(), key) {
                    return Some(&payload[i].value);
                }
                i += 1;
            }
            assert(payload.deep_view().skip(n as int) =~= Seq::<PayloadModel>::empty());
            None
        } else {
            assert(self@.entries() =~= Seq::<PayloadModel>::empty());
            None
        }
    }
}

} // verus!
