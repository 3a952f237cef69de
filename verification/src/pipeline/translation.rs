use vstd::prelude::*;

use crate::text::{chars_of, trim_chars, trimmed};

verus! {

/// What the translation stage reads of one text layer on a page.
#[derive(Clone, Debug)]
pub struct TextLayer {
    /// The layer's content entity, which receives the translation.
    pub content: u64,
    /// Whether the request's scope holds the layer.
    pub in_scope: bool,
    /// The recognised source text, where there is one.
    pub source: Option<String>,
}

/// Whether a layer is translated: it is in scope and has a source text that
/// is not blank.
pub open spec fn is_target(layer: TextLayer) -> bool {
    layer.in_scope && match layer.source {
        Some(text) => trimmed(text@).len() > 0,
        None => false,
    }
}

/// The `(content, source)` pairs of the layers that are translated, in order.
pub open spec fn targets_of(layers: Seq<TextLayer>) -> Seq<(u64, String)>
    decreases layers.len(),
{
    if layers.len() == 0 {
        Seq::empty()
    } else {
        let earlier = targets_of(layers.drop_last());
        let layer = layers.last();
        if is_target(layer) {
            earlier.push((layer.content, layer.source->0))
        } else {
            earlier
        }
    }
}

fn is_blank(text: &str) -> (blank: bool)
    ensures
        blank == (trimmed(text@).len() == 0),
{
    let kept = trim_chars(&chars_of(text));
    kept.len() == 0
}

/// The layers that are sent for translation, with their source texts.
pub fn translation_targets(layers: &Vec<TextLayer>) -> (targets: Vec<(u64, String)>)
    ensures
        targets@ == targets_of(layers@),
{
    let mut targets: Vec<(u64, String)> = Vec::new();
    let mut k: usize = 0;
    while k < layers.len()
        invariant
            k <= layers@.len(),
            targets@ == targets_of(layers@.take(k as int)),
        decreases layers@.len() - k,
    {
        proof {
            assert(layers@.take(k + 1).drop_last() =~= layers@.take(k as int));
            assert(layers@.take(k + 1).last() == layers@[k as int]);
        }
        let layer = &layers[k];
        if layer.in_scope {
            match &layer.source {
                Some(text) => {
                    if !is_blank(text.as_str()) {
                        targets.push((layer.content, text.clone()));
                    }
                },
                None => {},
            }
        }
        k = k + 1;
    }
    proof {
        assert(layers@.take(layers@.len() as int) =~= layers@);
    }
    targets
}

/// The horizontal ellipsis.
pub open spec fn ellipsis() -> Seq<char> {
    seq!['\u{2026}']
}

/// The text written for a source: a source that is only an ellipsis keeps
/// the ellipsis, whatever was translated; otherwise the translation.
pub open spec fn written_text(source: Seq<char>, translated: Seq<char>) -> Seq<char> {
    if trimmed(source) == ellipsis() {
        ellipsis()
    } else {
        translated
    }
}

/// The text written for a source.
pub fn written_translation(source: &str, translated: String) -> (text: String)
    ensures
        text@ == written_text(source@, translated@),
{
    let kept = trim_chars(&chars_of(source));
    proof {
        reveal_strlit("\u{2026}");
    }
    if kept.len() == 1 && kept[0] == '\u{2026}' {
        proof {
            assert(kept@ =~= ellipsis());
        }
        String::from_str("\u{2026}")
    } else {
        proof {
            if trimmed(source@) == ellipsis() {
                assert(kept@[0] == '\u{2026}');
            }
        }
        translated
    }
}

/// One translation to write: the content entity and its text.
pub open spec fn writes_of(
    targets: Seq<(u64, String)>,
    translated: Seq<String>,
    user_authored: Seq<bool>,
    n: int,
) -> Seq<(u64, Seq<char>)>
    decreases n,
{
    if n <= 0 {
        Seq::empty()
    } else {
        let earlier = writes_of(targets, translated, user_authored, n - 1);
        if user_authored[n - 1] {
            earlier
        } else {
            earlier.push((targets[n - 1].0, written_text(targets[n - 1].1@, translated[n - 1]@)))
        }
    }
}

/// The translations to write: each target paired in order with a
/// translated text (as far as both lists reach), except those whose current
/// translation the user wrote, with a lone ellipsis kept as it is.
pub fn translations_to_write(
    targets: &Vec<(u64, String)>,
    translated: Vec<String>,
    user_authored: &Vec<bool>,
) -> (writes: Vec<(u64, String)>)
    requires
        user_authored@.len() == targets@.len(),
    ensures
        ({
            let n = if targets@.len() <= translated@.len() { targets@.len() as int } else { translated@.len() as int };
            writes@.map_values(|w: (u64, String)| (w.0, w.1@)) == writes_of(targets@, translated@, user_authored@, n)
        }),
{
    let ghost all = translated@;
    let n = if targets.len() <= translated.len() { targets.len() } else { translated.len() };
    let mut rest = translated;
    let mut writes: Vec<(u64, String)> = Vec::new();
    let mut k: usize = 0;
    while k < n
        invariant
            n <= targets@.len(),
            n <= all.len(),
            user_authored@.len() == targets@.len(),
            k <= n,
            rest@ == all.skip(k as int),
            writes@.map_values(|w: (u64, String)| (w.0, w.1@)) == writes_of(targets@, all, user_authored@, k as int),
        decreases n - k,
    {
        let text = rest.remove(0);
        proof {
            assert(text == all[k as int]);
        }
        if !user_authored[k] {
            let ghost before = writes@;
            let written = written_translation(targets[k].1.as_str(), text);
            writes.push((targets[k].0, written));
            proof {
                assert(writes@.map_values(|w: (u64, String)| (w.0, w.1@)) =~= before.map_values(
                    |w: (u64, String)| (w.0, w.1@),
                ).push((targets@[k as int].0, written_text(targets@[k as int].1@, all[k as int]@))));
            }
        }
        k = k + 1;
        proof {
            assert(rest@ =~= all.skip(k as int));
        }
    }
    writes
}

} // verus!
