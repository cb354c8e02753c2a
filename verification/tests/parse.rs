//! Parsing whole documents: the note document, a commented document, and a
//! small graph document.

use simple_xml::from_string;
use simple_xml::Error;

const NOTE_XML: &str = "<note lang=\"en_US\"><to>Tove</to><from>Jani</from><heading>Reminder</heading><body>Don't forget me this weekend!</body></note>";

#[test]
fn parse() {
    let note = from_string(NOTE_XML).expect("Failed to parse simple_xml");

    let to = &note.get_nodes("to").expect("Missing to")[0];
    let from = &note.get_nodes("from").expect("Missing from")[0];
    let heading = &note.get_nodes("heading").expect("Missing heading")[0];
    let body = &note.get_nodes("body").expect("Missing body")[0];
    let lang = note
        .get_attribute("lang")
        .expect("Failed to get attribute lang");

    match note.try_get_nodes("missing_tag") {
        Err(Error::TagNotFound(a, b)) if a == "note" && b == "missing_tag" => {}
        Err(Error::TagNotFound(_, _)) => {
            panic!("Incorrect error for try_get_nodes()");
        }
        Err(_) => {
            panic!("Incorrect error kind");
        }
        Ok(_) => panic!("Did not expect ok variant"),
    }

    assert_eq!(to.content, "Tove");
    assert_eq!(from.content, "Jani");
    assert_eq!(heading.content, "Reminder");
    assert_eq!(body.content, "Don't forget me this weekend!");
    assert_eq!(lang, "en_US");
}

#[test]
fn parse_comment() {
    let doc = "<!-- A comment before the root -->\n<root>\n    <a>1</a>\n</root>";
    let root = from_string(doc).expect("Failed to parse comment.xml");
    assert_eq!(root.tag, "root");
    assert_eq!(root.get_nodes("a").expect("Missing a")[0].content, "1");
}

#[test]
fn parse_graph() {
    let doc = "<graph>\n\
        <node id=\"n1\"><label>Start</label></node>\n\
        <node id=\"n2\"><label>A</label></node>\n\
        <node id=\"n3\"><label>B</label></node>\n\
        <node id=\"n4\"><label>End</label></node>\n\
        <init ref=\"n1\"/>\n\
        <edge id=\"e1\" from=\"n1\" to=\"n2\"/>\n\
        <edge id=\"e2\" from=\"n2\" to=\"n3\"/>\n\
        <edge id=\"e3\" from=\"n3\" to=\"n1\"/>\n\
        <edge id=\"e4\" from=\"n3\" to=\"n4\"/>\n\
        <edge id=\"e5\" from=\"n4\" to=\"n3\"/>\n\
        </graph>";
    let graph = from_string(doc).expect("Failed to parse graph.xml");

    let nodes = graph.get_nodes("node").expect("Missing node group");
    assert_eq!(nodes.len(), 4);
    assert_eq!(nodes[0].get_attribute("id").unwrap(), "n1");
    assert_eq!(
        nodes[0].get_nodes("label").expect("Missing label")[0].content,
        "Start"
    );
    assert_eq!(nodes[1].get_attribute("id").unwrap(), "n2");
    assert_eq!(nodes[2].get_attribute("id").unwrap(), "n3");
    assert_eq!(nodes[3].get_attribute("id").unwrap(), "n4");

    let init = graph.get_nodes("init").expect("Missing init group");
    assert_eq!(init[0].get_attribute("ref").unwrap(), "n1");

    let edges = graph.get_nodes("edge").expect("Missing edge group");
    assert_eq!(edges[0].get_attribute("id").unwrap(), "e1");
    assert_eq!(edges[0].get_attribute("from").unwrap(), "n1");
    assert_eq!(edges[0].get_attribute("to").unwrap(), "n2");

    assert_eq!(edges[1].get_attribute("id").unwrap(), "e2");
    assert_eq!(edges[1].get_attribute("from").unwrap(), "n2");
    assert_eq!(edges[1].get_attribute("to").unwrap(), "n3");

    assert_eq!(edges[2].get_attribute("id").unwrap(), "e3");
    assert_eq!(edges[2].get_attribute("from").unwrap(), "n3");
    assert_eq!(edges[2].get_attribute("to").unwrap(), "n1");

    assert_eq!(edges[3].get_attribute("id").unwrap(), "e4");
    assert_eq!(edges[3].get_attribute("from").unwrap(), "n3");
    assert_eq!(edges[3].get_attribute("to").unwrap(), "n4");

    assert_eq!(edges[4].get_attribute("id").unwrap(), "e5");
    assert_eq!(edges[4].get_attribute("from").unwrap(), "n4");
    assert_eq!(edges[4].get_attribute("to").unwrap(), "n3");
}

#[test]
fn parse_collada() {
    let doc = "<?xml version=\"1.0\" encoding=\"utf-8\"?>\n\
        <COLLADA xmlns=\"http://www.collada.org/2005/11/COLLADASchema\" version=\"1.4.1\">\n\
          <asset>\n\
            <contributor>\n\
              <author>Blender User</author>\n\
              <authoring_tool>Blender 2.82</authoring_tool>\n\
            </contributor>\n\
            <created>2020-04-01T10:00:00</created>\n\
            <modified>2020-04-01T10:00:00</modified>\n\
            <unit name=\"meter\" meter=\"1\"/>\n\
            <up_axis>Z_UP</up_axis>\n\
          </asset>\n\
          <library_cameras>\n\
            <camera id=\"Camera-camera\" name=\"Camera\">\n\
              <optics>\n\
                <technique_common>\n\
                  <perspective>\n\
                    <xfov sid=\"xfov\">39.6</xfov>\n\
                    <aspect_ratio>1.777</aspect_ratio>\n\
                    <znear sid=\"znear\">0.1</znear>\n\
                    <zfar sid=\"zfar\">100</zfar>\n\
                  </perspective>\n\
                </technique_common>\n\
              </optics>\n\
            </camera>\n\
          </library_cameras>\n\
          <library_geometries>\n\
            <geometry id=\"Cube-mesh\" name=\"Cube\">\n\
              <mesh>\n\
                <source id=\"Cube-mesh-positions\">\n\
                  <float_array id=\"Cube-mesh-positions-array\" count=\"24\">1 1 1 1 1 -1 1 -1 1 1 -1 -1 -1 1 1 -1 1 -1 -1 -1 1 -1 -1 -1</float_array>\n\
                  <technique_common>\n\
                    <accessor source=\"#Cube-mesh-positions-array\" count=\"8\" stride=\"3\">\n\
                      <param name=\"X\" type=\"float\"/>\n\
                      <param name=\"Y\" type=\"float\"/>\n\
                      <param name=\"Z\" type=\"float\"/>\n\
                    </accessor>\n\
                  </technique_common>\n\
                </source>\n\
                <vertices id=\"Cube-mesh-vertices\">\n\
                  <input semantic=\"POSITION\" source=\"#Cube-mesh-positions\"/>\n\
                </vertices>\n\
                <triangles count=\"12\">\n\
                  <input semantic=\"VERTEX\" source=\"#Cube-mesh-vertices\" offset=\"0\"/>\n\
                  <p>4 2 0 2 7 3 6 5 7 1 7 5 0 3 1 4 1 5</p>\n\
                </triangles>\n\
              </mesh>\n\
            </geometry>\n\
          </library_geometries>\n\
          <scene>\n\
            <instance_visual_scene url=\"#Scene\"/>\n\
          </scene>\n\
        </COLLADA>";
    let root = match from_string(doc) {
        Err(e) => {
            println!("Error: {:?}", e);
            panic!("")
        }
        Ok(v) => v,
    };
    assert_eq!(root.tag, "COLLADA");
    assert_eq!(root.get_attribute("version").unwrap(), "1.4.1");
    let geometries = &root.get_nodes("library_geometries").unwrap()[0];
    let geometry = &geometries.get_nodes("geometry").unwrap()[0];
    assert_eq!(geometry.get_attribute("name").unwrap(), "Cube");
}

#[test]
fn parse_with_index_shorthand() {
    let note = from_string(NOTE_XML).expect("Failed to parse");
    assert_eq!(note.index("to")[0].content, "Tove");
    assert_eq!(note.index("missing").len(), 0);
}

#[test]
fn parse_interleaved_text() {
    // The raw fragments " x " and " y " concatenate unchanged and are trimmed
    // once, so the interior whitespace of both fragments survives.
    let root = from_string("<a> x <b/> y </a>").expect("Failed to parse");
    assert_eq!(root.content, "x  y");
    assert_eq!(root.get_nodes("b").unwrap().len(), 1);
}

#[test]
fn parse_no_tag_gives_sentinel() {
    let root = from_string("plain text, no tags at all").expect("no-tag input must succeed");
    assert_eq!(root.tag, "");
    assert_eq!(root.to_string(), "");
    let empty = from_string("").expect("empty input must succeed");
    assert_eq!(empty.tag, "");
}
