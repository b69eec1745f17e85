use stratum::links::{decode, headings, links_in, slug};

fn has(h: &[String], s: &str) -> bool {
    h.iter().any(|x| x == s)
}

#[test]
fn un_link_normal_se_cuenta() {
    let l = links_in("Ver [node](node.md) para el formato.");
    assert_eq!(l.len(), 1);
    assert_eq!(l[0].0, "node.md");
}

#[test]
fn un_link_adentro_de_un_bloque_de_codigo_no_cuenta() {
    let doc = "Real: [node](node.md).\n\n```markdown\nVer [capture.md](capture.md).\n```\n";
    let l = links_in(doc);
    assert_eq!(l.len(), 1, "sólo el de afuera: {l:?}");
    assert_eq!(l[0].0, "node.md");
}

#[test]
fn una_cerca_mas_larga_contiene_a_las_de_adentro() {
    let doc = "````markdown\nUno [a](a.md)\n```\nDos [b](b.md)\n```\nTres [c](c.md)\n````\n[real](d.md)";
    let l = links_in(doc);
    assert_eq!(l.len(), 1, "sólo el de afuera de todo: {l:?}");
    assert_eq!(l[0].0, "d.md");
}

#[test]
fn una_imagen_no_es_una_referencia() {
    assert!(links_in("![alt](x.png)").is_empty());
}

#[test]
fn los_links_externos_no_se_verifican() {
    assert!(links_in("[git](https://git-scm.com) y [mail](mailto:a@b)").is_empty());
}

#[test]
fn el_texto_puede_llevar_corchetes_y_codigo() {
    let l = links_in("Ver [`concepts/ref.md`](../concepts/ref.md#un-commit).");
    assert_eq!(l.len(), 1);
    assert_eq!(l[0].0, "../concepts/ref.md#un-commit");
}

#[test]
fn el_backtick_se_saca_sin_dejar_guion() {
    assert_eq!(
        slug("`.bilink/head` — de dónde salió el árbol"),
        "bilinkhead-de-dónde-salió-el-árbol"
    );
}

#[test]
fn los_headings_de_adentro_de_un_bloque_no_son_headings() {
    let doc = "# Uno\n\n```md\n# No\n```\n\n## Dos\n";
    let h = headings(doc);
    assert!(has(&h, "uno") && has(&h, "dos"));
    assert!(!has(&h, "no"), "{h:?}");
}

#[test]
fn el_anchor_escapado_se_decodifica() {
    assert_eq!(decode("de-d%C3%B3nde"), "de-dónde");
}
