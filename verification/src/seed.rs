//! First-run example snippets, per region. The examples use each region's
//! conventions (US phone/date/address vs. Brazilian CPF/DDD/CEP) and double
//! as documentation of tokens like `{date}` and form variables like
//! `[[key:Label]]`.

use vstd::prelude::*;
use crate::models::NewSnippet;
use crate::region::Region;
use crate::text::ascii_lower_seq;

verus! {

/// One example: `(name, trigger, body, favorite)`.
pub type Example = (Seq<char>, Seq<char>, Seq<char>, bool);

pub open spec fn us_examples() -> Seq<Example> {
    seq![
        ("My email"@, ";email"@, "you@example.com"@, true),
        ("My phone"@, ";phone"@, "(555) 123-4567"@, false),
        ("Mailing address"@, ";addr"@, "123 Main St, Apt 4\nSpringfield, IL 62704"@, false),
        ("Today's date"@, ";date"@, "{date}"@, false),
        ("Email signature"@, ";sig"@, "Best regards,\nAlex Doe\nAcme Corp — you@example.com"@, false),
        (
            "Meeting follow-up"@,
            ";followup"@,
            "Hi [[name:First name]],\n\nThanks for meeting on {date}. Here's a quick recap of what we discussed:\n\n- \n\nBest,\nAlex"@,
            false,
        ),
    ]
}

pub open spec fn br_examples() -> Seq<Example> {
    seq![
        ("Meu e-mail"@, ";email"@, "voce@exemplo.com"@, true),
        ("Meu telefone"@, ";tel"@, "+55 (11) 91234-5678"@, false),
        ("Meu CPF"@, ";cpf"@, "123.456.789-00"@, false),
        ("Endereço"@, ";end"@, "Rua das Flores, 123 — Apto 4\nSão Paulo, SP — 01310-100"@, false),
        ("Data de hoje"@, ";data"@, "{date}"@, false),
        (
            "Assinatura"@,
            ";assinatura"@,
            "Atenciosamente,\nMaria Silva\nÁrvore Consultoria — voce@exemplo.com"@,
            false,
        ),
        (
            "Follow-up de reunião"@,
            ";followup"@,
            "Olá [[nome:Primeiro nome]],\n\nObrigado pela reunião em {date}. Segue um resumo do que conversamos:\n\n- \n\nAbraço,\nMaria"@,
            false,
        ),
    ]
}

pub open spec fn seed_examples(region: Region) -> Seq<Example> {
    match region {
        Region::US => us_examples(),
        Region::BR => br_examples(),
    }
}

/// `s` is the snippet of example `e`, with its trigger set.
pub open spec fn is_example(s: NewSnippet, e: Example) -> bool {
    &&& s.name@ == e.0
    &&& s.trigger matches Some(t) && t@ == e.1
    &&& s.body@ == e.2
    &&& s.body_html is None
    &&& s.folder_id is None
    &&& s.is_favorite == e.3
}

fn example(name: &str, trigger: &str, body: &str, favorite: bool) -> (s: NewSnippet)
    ensures
        is_example(s, (name@, trigger@, body@, favorite)),
{
    NewSnippet {
        name: name.to_owned(),
        trigger: Some(trigger.to_owned()),
        body: body.to_owned(),
        body_html: None,
        folder_id: None,
        is_favorite: favorite,
    }
}

/// The example snippets to seed for `region`, in display order.
pub fn examples_for(region: Region) -> (r: Vec<NewSnippet>)
    ensures
        r@.len() == seed_examples(region).len(),
        forall|i: int| 0 <= i < r@.len() ==> is_example(#[trigger] r@[i], seed_examples(region)[i]),
{
    let mut v: Vec<NewSnippet> = Vec::new();
    match region {
        Region::US => {
            v.push(example("My email", ";email", "you@example.com", true));
            v.push(example("My phone", ";phone", "(555) 123-4567", false));
            v.push(
                example(
                    "Mailing address",
                    ";addr",
                    "123 Main St, Apt 4\nSpringfield, IL 62704",
                    false,
                ),
            );
            v.push(example("Today's date", ";date", "{date}", false));
            v.push(
                example(
                    "Email signature",
                    ";sig",
                    "Best regards,\nAlex Doe\nAcme Corp — you@example.com",
                    false,
                ),
            );
            v.push(
                example(
                    "Meeting follow-up",
                    ";followup",
                    "Hi [[name:First name]],\n\nThanks for meeting on {date}. Here's a quick recap of what we discussed:\n\n- \n\nBest,\nAlex",
                    false,
                ),
            );
        },
        Region::BR => {
            v.push(example("Meu e-mail", ";email", "voce@exemplo.com", true));
            v.push(example("Meu telefone", ";tel", "+55 (11) 91234-5678", false));
            v.push(example("Meu CPF", ";cpf", "123.456.789-00", false));
            v.push(
                example(
                    "Endereço",
                    ";end",
                    "Rua das Flores, 123 — Apto 4\nSão Paulo, SP — 01310-100",
                    false,
                ),
            );
            v.push(example("Data de hoje", ";data", "{date}", false));
            v.push(
                example(
                    "Assinatura",
                    ";assinatura",
                    "Atenciosamente,\nMaria Silva\nÁrvore Consultoria — voce@exemplo.com",
                    false,
                ),
            );
            v.push(
                example(
                    "Follow-up de reunião",
                    ";followup",
                    "Olá [[nome:Primeiro nome]],\n\nObrigado pela reunião em {date}. Segue um resumo do que conversamos:\n\n- \n\nAbraço,\nMaria",
                    false,
                ),
            );
        },
    }
    v
}

/// Within a region no two examples share a trigger, even ignoring ASCII
/// case, so seeding never trips the trigger uniqueness check.
pub proof fn law_seed_triggers_unique(region: Region)
    ensures
        forall|i: int, j: int|
            0 <= i < j < seed_examples(region).len() ==> ascii_lower_seq(
                #[trigger] seed_examples(region)[i].1,
            ) != ascii_lower_seq(#[trigger] seed_examples(region)[j].1),
{
    reveal_strlit(";email");
    reveal_strlit(";phone");
    reveal_strlit(";addr");
    reveal_strlit(";date");
    reveal_strlit(";sig");
    reveal_strlit(";followup");
    reveal_strlit(";tel");
    reveal_strlit(";cpf");
    reveal_strlit(";end");
    reveal_strlit(";data");
    reveal_strlit(";assinatura");
    let ex = seed_examples(region);
    assert forall|i: int, j: int| 0 <= i < j < ex.len() implies ascii_lower_seq(#[trigger] ex[i].1)
        != ascii_lower_seq(#[trigger] ex[j].1) by {
        let a = ascii_lower_seq(ex[i].1);
        let b = ascii_lower_seq(ex[j].1);
        if ex[i].1.len() == ex[j].1.len() {
            assert(a[1] == crate::text::ascii_lower(ex[i].1[1]));
            assert(b[1] == crate::text::ascii_lower(ex[j].1[1]));
            assert(a[1] != b[1]);
        } else {
            assert(a.len() != b.len());
        }
    }
}

} // verus!
