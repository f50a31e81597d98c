//! The multiplicative group of the field is cyclic of order `p - 1`,
//! generated by `7`: every non-zero residue is a power of `7`, and Fermat's
//! little theorem holds for every non-zero residue.
use crate::arith::{lemma_pow_mod_is_pow, lemma_pow_mod_step_exact, lemma_pow_mod_zero, pow_mod};
use crate::fft::inv_val;
use crate::domain::root_of_unity_val;
use crate::field::{fmod, group_order, lemma_generator_half_order, lemma_root_of_unity_facts, MODULUS};
use crate::primality::{
    hits, is_order, is_prime, lemma_divides_trans, lemma_least_divisor, lemma_order_divides,
    lemma_order_exists, lemma_order_power_nonzero, lemma_order_powers_distinct, lemma_pigeonhole,
    lemma_pow_one_mult, lemma_prime_17, lemma_prime_2, lemma_prime_257, lemma_prime_3,
    lemma_prime_5, lemma_prime_65537, lemma_prime_divides_prime, lemma_prime_peel,
};
use vstd::arithmetic::div_mod::{lemma_fundamental_div_mod, lemma_mod_bound, lemma_mul_mod_noop_general, lemma_small_mod};
use vstd::arithmetic::power::{lemma_pow_adds, lemma_pow_mod_noop, lemma_pow_multiplies, pow};
use vstd::arithmetic::power2::{lemma_pow2_unfold, pow2};
use vstd::prelude::*;

verus! {

proof fn cofactor_3_part_0()
    requires
        pow_mod(7, 0, 18446744069414584321) == 1,
    ensures
        pow_mod(7, 43690, 18446744069414584321) == 15486580570079272365,
{
    lemma_pow_mod_step_exact(7, 1, 18446744069414584321, 1, 0, 1, 0, 7);
    lemma_pow_mod_step_exact(7, 2, 18446744069414584321, 7, 0, 49, 0, 49);
    lemma_pow_mod_step_exact(7, 5, 18446744069414584321, 49, 0, 2401, 0, 16807);
    lemma_pow_mod_step_exact(7, 10, 18446744069414584321, 16807, 0, 282475249, 0, 282475249);
    lemma_pow_mod_step_exact(7, 21, 18446744069414584321, 282475249, 0, 79792266297612001, 0, 558545864083284007);
    lemma_pow_mod_step_exact(7, 42, 18446744069414584321, 558545864083284007, 16912116366476102, 8022122801911579307, 0, 8022122801911579307);
    lemma_pow_mod_step_exact(7, 85, 18446744069414584321, 8022122801911579307, 3488661956103780069, 4463956420510902100, 1, 12800950874161730379);
    lemma_pow_mod_step_exact(7, 170, 18446744069414584321, 12800950874161730379, 8883103851069056297, 14271156885488964304, 0, 14271156885488964304);
    lemma_pow_mod_step_exact(7, 341, 18446744069414584321, 14271156885488964304, 11040751586504908066, 6640181542876171230, 2, 9587782661304029968);
    lemma_pow_mod_step_exact(7, 682, 18446744069414584321, 9587782661304029968, 4983295481006772960, 10276868313419320864, 0, 10276868313419320864);
    lemma_pow_mod_step_exact(7, 1365, 18446744069414584321, 10276868313419320864, 5725347624162803535, 12692611838971331761, 4, 15061306595140985043);
    lemma_pow_mod_step_exact(7, 2730, 18446744069414584321, 15061306595140985043, 12297181307402195377, 10087193495066827832, 0, 10087193495066827832);
    lemma_pow_mod_step_exact(7, 5461, 18446744069414584321, 10087193495066827832, 5515958383985302078, 17666492521142301186, 6, 12984983231508602376);
    lemma_pow_mod_step_exact(7, 10922, 18446744069414584321, 12984983231508602376, 9140355007262292068, 1362657970957379548, 0, 1362657970957379548);
    lemma_pow_mod_step_exact(7, 21845, 18446744069414584321, 1362657970957379548, 100659321711542029, 14866894507972756995, 5, 11834541208736377360);
    lemma_pow_mod_step_exact(7, 43690, 18446744069414584321, 11834541208736377360, 7592470795618526035, 15486580570079272365, 0, 15486580570079272365);
}

proof fn cofactor_3_part_1()
    requires
        pow_mod(7, 43690, 18446744069414584321) == 15486580570079272365,
    ensures
        pow_mod(7, 2863311530, 18446744069414584321) == 998724450546658713,
{
    lemma_pow_mod_step_exact(7, 87381, 18446744069414584321, 15486580570079272365, 13001436830861181108, 8219357140934485557, 3, 2195267778297645936);
    lemma_pow_mod_step_exact(7, 174762, 18446744069414584321, 2195267778297645936, 261249389068193530, 12545318111885672966, 0, 12545318111885672966);
    lemma_pow_mod_step_exact(7, 349525, 18446744069414584321, 12545318111885672966, 8531858301723670530, 16274283408395477026, 6, 3239519442280833256);
    lemma_pow_mod_step_exact(7, 699050, 18446744069414584321, 3239519442280833256, 568907237907408565, 11109814195885452171, 0, 11109814195885452171);
    lemma_pow_mod_step_exact(7, 1398101, 18446744069414584321, 11109814195885452171, 6691043742063200757, 8592128779201082244, 3, 4804669246163822745);
    lemma_pow_mod_step_exact(7, 2796202, 18446744069414584321, 4804669246163822745, 1251432040156506853, 438903447396483212, 0, 438903447396483212);
    lemma_pow_mod_step_exact(7, 5592405, 18446744069414584321, 438903447396483212, 10442831288363556, 16528309341332431468, 6, 5017700972839514350);
    lemma_pow_mod_step_exact(7, 11184810, 18446744069414584321, 5017700972839514350, 1364865417880415269, 7499557959359525151, 0, 7499557959359525151);
    lemma_pow_mod_step_exact(7, 22369621, 18446744069414584321, 7499557959359525151, 3048959175350976374, 6501481669499740747, 2, 8616883547669016587);
    lemma_pow_mod_step_exact(7, 44739242, 18446744069414584321, 8616883547669016587, 4025137541600063836, 458110968676413213, 0, 458110968676413213);
    lemma_pow_mod_step_exact(7, 89478485, 18446744069414584321, 458110968676413213, 11376840207243241, 1678842135369159008, 0, 11751894947584113056);
    lemma_pow_mod_step_exact(7, 178956970, 18446744069414584321, 11751894947584113056, 7486797363228983743, 525895266577965633, 0, 525895266577965633);
    lemma_pow_mod_step_exact(7, 357913941, 18446744069414584321, 525895266577965633, 14992663765941567, 8359630718448719682, 3, 3177182820897284811);
    lemma_pow_mod_step_exact(7, 715827882, 18446744069414584321, 3177182820897284811, 547223436256259685, 7964267603545906836, 0, 7964267603545906836);
    lemma_pow_mod_step_exact(7, 1431655765, 18446744069414584321, 7964267603545906836, 3438523254955302650, 17834245605091780246, 6, 14159254819154955796);
    lemma_pow_mod_step_exact(7, 2863311530, 18446744069414584321, 14159254819154955796, 10868286364213937143, 998724450546658713, 0, 998724450546658713);
}

proof fn cofactor_3_part_2()
    requires
        pow_mod(7, 2863311530, 18446744069414584321) == 998724450546658713,
    ensures
        pow_mod(7, 187649984430080, 18446744069414584321) == 6905479200839918232,
{
    lemma_pow_mod_step_exact(7, 5726623060, 18446744069414584321, 998724450546658713, 54071901489300593, 1811047956385014016, 0, 1811047956385014016);
    lemma_pow_mod_step_exact(7, 11453246120, 18446744069414584321, 1811047956385014016, 177803448022273372, 2957134717709447844, 0, 2957134717709447844);
    lemma_pow_mod_step_exact(7, 22906492240, 18446744069414584321, 2957134717709447844, 474048195485158646, 8418656202527058970, 0, 8418656202527058970);
    lemma_pow_mod_step_exact(7, 45812984480, 18446744069414584321, 8418656202527058970, 3842074893523284633, 9344165103595421707, 0, 9344165103595421707);
    lemma_pow_mod_step_exact(7, 91625968960, 18446744069414584321, 9344165103595421707, 4733270064066182308, 12398472707942400981, 0, 12398472707942400981);
    lemma_pow_mod_step_exact(7, 183251937920, 18446744069414584321, 12398472707942400981, 8333293122685526258, 10977358340789161543, 0, 10977358340789161543);
    lemma_pow_mod_step_exact(7, 366503875840, 18446744069414584321, 10977358340789161543, 6532447985869279269, 14519574879452399500, 0, 14519574879452399500);
    lemma_pow_mod_step_exact(7, 733007751680, 18446744069414584321, 14519574879452399500, 11428469646823455213, 3056692624244734627, 0, 3056692624244734627);
    lemma_pow_mod_step_exact(7, 1466015503360, 18446744069414584321, 3056692624244734627, 506505091844572788, 17973258314804772181, 0, 17973258314804772181);
    lemma_pow_mod_step_exact(7, 2932031006720, 18446744069414584321, 17973258314804772181, 17511925857219887972, 15462695660743809749, 0, 15462695660743809749);
    lemma_pow_mod_step_exact(7, 5864062013440, 18446744069414584321, 15462695660743809749, 12961363598750965303, 18046908317468628738, 0, 18046908317468628738);
    lemma_pow_mod_step_exact(7, 11728124026880, 18446744069414584321, 18046908317468628738, 17655739061243143202, 9144605907772536802, 0, 9144605907772536802);
    lemma_pow_mod_step_exact(7, 23456248053760, 18446744069414584321, 9144605907772536802, 4533256215503087484, 8796482344486648840, 0, 8796482344486648840);
    lemma_pow_mod_step_exact(7, 46912496107520, 18446744069414584321, 8796482344486648840, 4194675295851326834, 3596945015050375886, 0, 3596945015050375886);
    lemma_pow_mod_step_exact(7, 93824992215040, 18446744069414584321, 3596945015050375886, 701371114198276100, 4201997653601256896, 0, 4201997653601256896);
    lemma_pow_mod_step_exact(7, 187649984430080, 18446744069414584321, 4201997653601256896, 957176194044243304, 6905479200839918232, 0, 6905479200839918232);
}

proof fn cofactor_3_part_3()
    requires
        pow_mod(7, 187649984430080, 18446744069414584321) == 6905479200839918232,
    ensures
        pow_mod(7, 6148914689804861440, 18446744069414584321) == 18446744065119617025,
{
    lemma_pow_mod_step_exact(7, 375299968860160, 18446744069414584321, 6905479200839918232, 2585043887083431574, 1725491680989254570, 0, 1725491680989254570);
    lemma_pow_mod_step_exact(7, 750599937720320, 18446744069414584321, 1725491680989254570, 161400924193426514, 12370230134295797906, 0, 12370230134295797906);
    lemma_pow_mod_step_exact(7, 1501199875440640, 18446744069414584321, 12370230134295797906, 8295371421624329761, 3734230229149707555, 0, 3734230229149707555);
    lemma_pow_mod_step_exact(7, 3002399750881280, 18446744069414584321, 3734230229149707555, 755931526551395991, 16496341184493220914, 0, 16496341184493220914);
    lemma_pow_mod_step_exact(7, 6004799501762560, 18446744069414584321, 16496341184493220914, 14752157424160725999, 15331777707844533717, 0, 15331777707844533717);
    lemma_pow_mod_step_exact(7, 12009599003525120, 18446744069414584321, 15331777707844533717, 12742812867041550857, 11895029263313522992, 0, 11895029263313522992);
    lemma_pow_mod_step_exact(7, 24019198007050240, 18446744069414584321, 11895029263313522992, 7670281576122899860, 11373273867503537004, 0, 11373273867503537004);
    lemma_pow_mod_step_exact(7, 48038396014100480, 18446744069414584321, 11373273867503537004, 7012151194730804623, 13835058050987180033, 0, 13835058050987180033);
    lemma_pow_mod_step_exact(7, 96076792028200960, 18446744069414584321, 13835058050987180033, 10376293537435066369, 35184372080640, 0, 35184372080640);
    lemma_pow_mod_step_exact(7, 192153584056401920, 18446744069414584321, 35184372080640, 67108863, 18158513693262872577, 0, 18158513693262872577);
    lemma_pow_mod_step_exact(7, 384307168112803840, 18446744069414584321, 18158513693262872577, 17874786916739579904, 18446744069413535745, 0, 18446744069413535745);
    lemma_pow_mod_step_exact(7, 768614336225607680, 18446744069414584321, 18446744069413535745, 18446744069412487169, 1099511627776, 0, 1099511627776);
    lemma_pow_mod_step_exact(7, 1537228672451215360, 18446744069414584321, 1099511627776, 65536, 281474976645120, 0, 281474976645120);
    lemma_pow_mod_step_exact(7, 3074457344902430720, 18446744069414584321, 281474976645120, 4294967294, 18446744065119617026, 0, 18446744065119617026);
    lemma_pow_mod_step_exact(7, 6148914689804861440, 18446744069414584321, 18446744065119617026, 18446744060824649731, 18446744065119617025, 0, 18446744065119617025);
}

/// `7^((p-1)/3) != 1` modulo `p`.
proof fn lemma_cofactor_3()
    ensures
        pow(7, 6148914689804861440) % 18446744069414584321 == 18446744065119617025,
{
    lemma_pow_mod_zero(7, 18446744069414584321);
    cofactor_3_part_0();
    cofactor_3_part_1();
    cofactor_3_part_2();
    cofactor_3_part_3();
    lemma_pow_mod_is_pow(7, 6148914689804861440, 18446744069414584321);
}

proof fn cofactor_5_part_0()
    requires
        pow_mod(7, 0, 18446744069414584321) == 1,
    ensures
        pow_mod(7, 52428, 18446744069414584321) == 9571849187322067488,
{
    lemma_pow_mod_step_exact(7, 1, 18446744069414584321, 1, 0, 1, 0, 7);
    lemma_pow_mod_step_exact(7, 3, 18446744069414584321, 7, 0, 49, 0, 343);
    lemma_pow_mod_step_exact(7, 6, 18446744069414584321, 343, 0, 117649, 0, 117649);
    lemma_pow_mod_step_exact(7, 12, 18446744069414584321, 117649, 0, 13841287201, 0, 13841287201);
    lemma_pow_mod_step_exact(7, 25, 18446744069414584321, 13841287201, 10, 7113790686420571191, 2, 12903046666114829695);
    lemma_pow_mod_step_exact(7, 51, 18446744069414584321, 12903046666114829695, 9025365812061196555, 9508792519651578870, 3, 11221315429317299127);
    lemma_pow_mod_step_exact(7, 102, 18446744069414584321, 11221315429317299127, 6826024120593252355, 3745031562215636174, 0, 3745031562215636174);
    lemma_pow_mod_step_exact(7, 204, 18446744069414584321, 3745031562215636174, 760310944262826016, 14721374862152863140, 0, 14721374862152863140);
    lemma_pow_mod_step_exact(7, 409, 18446744069414584321, 14721374862152863140, 11748353910940550106, 8580336748508171574, 3, 4722125031313448055);
    lemma_pow_mod_step_exact(7, 819, 18446744069414584321, 4722125031313448055, 1208802199859689631, 1883594833244407474, 0, 13185163832710852318);
    lemma_pow_mod_step_exact(7, 1638, 18446744069414584321, 13185163832710852318, 9424348526831569695, 2814030611640221029, 0, 2814030611640221029);
    lemma_pow_mod_step_exact(7, 3276, 18446744069414584321, 2814030611640221029, 429277288905301222, 15305242945550478579, 0, 15305242945550478579);
    lemma_pow_mod_step_exact(7, 6553, 18446744069414584321, 15305242945550478579, 12698742972789383586, 16390917471927504135, 6, 4055957887005023019);
    lemma_pow_mod_step_exact(7, 13107, 18446744069414584321, 4055957887005023019, 891799350565843482, 2270837492942628639, 0, 15895862450598400473);
    lemma_pow_mod_step_exact(7, 26214, 18446744069414584321, 15895862450598400473, 13697725847852728906, 15907429390595540903, 0, 15907429390595540903);
    lemma_pow_mod_step_exact(7, 52428, 18446744069414584321, 15907429390595540903, 13717667945333691601, 9571849187322067488, 0, 9571849187322067488);
}

proof fn cofactor_5_part_1()
    requires
        pow_mod(7, 52428, 18446744069414584321) == 9571849187322067488,
    ensures
        pow_mod(7, 3435973836, 18446744069414584321) == 10563623981652513853,
{
    lemma_pow_mod_step_exact(7, 104857, 18446744069414584321, 9571849187322067488, 4966746246387627957, 4541341506473167947, 1, 13342646475897591308);
    lemma_pow_mod_step_exact(7, 209715, 18446744069414584321, 13342646475897591308, 9650820454323794076, 6980271831054868468, 2, 11968414678554910634);
    lemma_pow_mod_step_exact(7, 419430, 18446744069414584321, 11968414678554910634, 7765215876516170691, 9815939365277946145, 0, 9815939365277946145);
    lemma_pow_mod_step_exact(7, 838860, 18446744069414584321, 9815939365277946145, 5223288470867314591, 15620185229717233314, 0, 15620185229717233314);
    lemma_pow_mod_step_exact(7, 1677721, 18446744069414584321, 15620185229717233314, 13226734522501539462, 10616950601403447294, 4, 531677932165793774);
    lemma_pow_mod_step_exact(7, 3355443, 18446744069414584321, 531677932165793774, 15324190680391730, 16662824208101097746, 6, 5959305040220178296);
    lemma_pow_mod_step_exact(7, 6710886, 18446744069414584321, 5959305040220178296, 1925180748903871568, 6422988881738978288, 0, 6422988881738978288);
    lemma_pow_mod_step_exact(7, 13421772, 18446744069414584321, 6422988881738978288, 2236426440335590882, 6417963550187649822, 0, 6417963550187649822);
    lemma_pow_mod_step_exact(7, 26843545, 18446744069414584321, 6417963550187649822, 2232928259672247577, 14252887398442191467, 5, 7536491442022418664);
    lemma_pow_mod_step_exact(7, 53687091, 18446744069414584321, 7536491442022418664, 3079063873925133703, 11420510904403074233, 4, 6156600053163182347);
    lemma_pow_mod_step_exact(7, 107374182, 18446744069414584321, 6156600053163182347, 2054765007416931727, 774671493430776042, 0, 774671493430776042);
    lemma_pow_mod_step_exact(7, 214748364, 18446744069414584321, 774671493430776042, 32532349366156400, 5396215078887381364, 0, 5396215078887381364);
    lemma_pow_mod_step_exact(7, 429496729, 18446744069414584321, 5396215078887381364, 1578551589811028170, 12728759107003177926, 4, 15314337471363908198);
    lemma_pow_mod_step_exact(7, 858993459, 18446744069414584321, 15314337471363908198, 12713838892342998846, 5793645042898913638, 2, 3662027161463226824);
    lemma_pow_mod_step_exact(7, 1717986918, 18446744069414584321, 3662027161463226824, 726981568174377818, 11820361339200135398, 0, 11820361339200135398);
    lemma_pow_mod_step_exact(7, 3435973836, 18446744069414584321, 11820361339200135398, 7574287454929238631, 10563623981652513853, 0, 10563623981652513853);
}

proof fn cofactor_5_part_2()
    requires
        pow_mod(7, 3435973836, 18446744069414584321) == 10563623981652513853,
    ensures
        pow_mod(7, 225179981316096, 18446744069414584321) == 8376609452955824527,
{
    lemma_pow_mod_step_exact(7, 6871947672, 18446744069414584321, 10563623981652513853, 6049314242439396175, 11556889392494533434, 0, 11556889392494533434);
    lemma_pow_mod_step_exact(7, 13743895344, 18446744069414584321, 11556889392494533434, 7240393856377241219, 5123117391711505057, 0, 5123117391711505057);
    lemma_pow_mod_step_exact(7, 27487790688, 18446744069414584321, 5123117391711505057, 1422816498699861553, 18163573378392062736, 0, 18163573378392062736);
    lemma_pow_mod_step_exact(7, 54975581376, 18446744069414584321, 18163573378392062736, 17884749559638838976, 17372647198866510400, 0, 17372647198866510400);
    lemma_pow_mod_step_exact(7, 109951162752, 18446744069414584321, 17372647198866510400, 16361091668024776241, 1220884775256242639, 0, 1220884775256242639);
    lemma_pow_mod_step_exact(7, 219902325504, 18446744069414584321, 1220884775256242639, 80803399713442746, 1436240010618898855, 0, 1436240010618898855);
    lemma_pow_mod_step_exact(7, 439804651008, 18446744069414584321, 1436240010618898855, 111823818899442134, 968157462317130011, 0, 968157462317130011);
    lemma_pow_mod_step_exact(7, 879609302016, 18446744069414584321, 968157462317130011, 50812699970965205, 993397133647309316, 0, 993397133647309316);
    lemma_pow_mod_step_exact(7, 1759218604032, 18446744069414584321, 993397133647309316, 53496587876171898, 14359758886168776598, 0, 14359758886168776598);
    lemma_pow_mod_step_exact(7, 3518437208064, 18446744069414584321, 14359758886168776598, 11178269427546032934, 11469785989846425790, 0, 11469785989846425790);
    lemma_pow_mod_step_exact(7, 7036874416128, 18446744069414584321, 11469785989846425790, 7131664545127087118, 7202858824453247222, 0, 7202858824453247222);
    lemma_pow_mod_step_exact(7, 14073748832256, 18446744069414584321, 7202858824453247222, 2812484146241558757, 8980223327998268287, 0, 8980223327998268287);
    lemma_pow_mod_step_exact(7, 28147497664512, 18446744069414584321, 8980223327998268287, 4371742282392037313, 2898061628613144896, 0, 2898061628613144896);
    lemma_pow_mod_step_exact(7, 56294995329024, 18446744069414584321, 2898061628613144896, 455297757242989289, 5148563552100513047, 0, 5148563552100513047);
    lemma_pow_mod_step_exact(7, 112589990658048, 18446744069414584321, 5148563552100513047, 1436985657212464717, 10405746850183322052, 0, 10405746850183322052);
    lemma_pow_mod_step_exact(7, 225179981316096, 18446744069414584321, 10405746850183322052, 5869847117878750337, 8376609452955824527, 0, 8376609452955824527);
}

proof fn cofactor_5_part_3()
    requires
        pow_mod(7, 225179981316096, 18446744069414584321) == 8376609452955824527,
    ensures
        pow_mod(7, 3689348813882916864, 18446744069414584321) == 1373043270956696022,
{
    lemma_pow_mod_step_exact(7, 450359962632192, 18446744069414584321, 8376609452955824527, 3803792455910387527, 17819501121686609562, 0, 17819501121686609562);
    lemma_pow_mod_step_exact(7, 900719925264384, 18446744069414584321, 17819501121686609562, 17213586258415924325, 12701195747762323519, 0, 12701195747762323519);
    lemma_pow_mod_step_exact(7, 1801439850528768, 18446744069414584321, 12701195747762323519, 8745194968604305178, 16093963071722629223, 0, 16093963071722629223);
    lemma_pow_mod_step_exact(7, 3602879701057536, 18446744069414584321, 16093963071722629223, 14041266381715007150, 18098504255140688579, 0, 18098504255140688579);
    lemma_pow_mod_step_exact(7, 7205759402115072, 18446744069414584321, 18098504255140688579, 17756838553229884021, 3705545293506004500, 0, 3705545293506004500);
    lemma_pow_mod_step_exact(7, 14411518804230144, 18446744069414584321, 3705545293506004500, 744362575344184441, 12143967077249500439, 0, 12143967077249500439);
    lemma_pow_mod_step_exact(7, 28823037608460288, 18446744069414584321, 12143967077249500439, 7994686532125774161, 8898934198923663040, 0, 8898934198923663040);
    lemma_pow_mod_step_exact(7, 57646075216920576, 18446744069414584321, 8898934198923663040, 4292954332687627470, 14017153681711143730, 0, 14017153681711143730);
    lemma_pow_mod_step_exact(7, 115292150433841152, 18446744069414584321, 14017153681711143730, 10651234526665370023, 13369903252519103517, 0, 13369903252519103517);
    lemma_pow_mod_step_exact(7, 230584300867682304, 18446744069414584321, 13369903252519103517, 9690290726052977176, 2271703332821311793, 0, 2271703332821311793);
    lemma_pow_mod_step_exact(7, 461168601735364608, 18446744069414584321, 2271703332821311793, 279758639949257494, 14026992134716723275, 0, 14026992134716723275);
    lemma_pow_mod_step_exact(7, 922337203470729216, 18446744069414584321, 14026992134716723275, 10666191692529345819, 2281812832982421726, 0, 2281812832982421726);
    lemma_pow_mod_step_exact(7, 1844674406941458432, 18446744069414584321, 2281812832982421726, 282254135752667881, 2625919085333925275, 0, 2625919085333925275);
    lemma_pow_mod_step_exact(7, 3689348813882916864, 18446744069414584321, 2625919085333925275, 373803150126307843, 1373043270956696022, 0, 1373043270956696022);
}

/// `7^((p-1)/5) != 1` modulo `p`.
proof fn lemma_cofactor_5()
    ensures
        pow(7, 3689348813882916864) % 18446744069414584321 == 1373043270956696022,
{
    lemma_pow_mod_zero(7, 18446744069414584321);
    cofactor_5_part_0();
    cofactor_5_part_1();
    cofactor_5_part_2();
    cofactor_5_part_3();
    lemma_pow_mod_is_pow(7, 3689348813882916864, 18446744069414584321);
}

proof fn cofactor_17_part_0()
    requires
        pow_mod(7, 0, 18446744069414584321) == 1,
    ensures
        pow_mod(7, 61680, 18446744069414584321) == 13847347385863248794,
{
    lemma_pow_mod_step_exact(7, 1, 18446744069414584321, 1, 0, 1, 0, 7);
    lemma_pow_mod_step_exact(7, 3, 18446744069414584321, 7, 0, 49, 0, 343);
    lemma_pow_mod_step_exact(7, 7, 18446744069414584321, 343, 0, 117649, 0, 823543);
    lemma_pow_mod_step_exact(7, 15, 18446744069414584321, 823543, 0, 678223072849, 0, 4747561509943);
    lemma_pow_mod_step_exact(7, 30, 18446744069414584321, 4747561509943, 1221860, 1582037354089406189, 0, 1582037354089406189);
    lemma_pow_mod_step_exact(7, 60, 18446744069414584321, 1582037354089406189, 135679347006500643, 6704211459967285318, 0, 6704211459967285318);
    lemma_pow_mod_step_exact(7, 120, 18446744069414584321, 6704211459967285318, 2436552007813651802, 12536486945555764682, 0, 12536486945555764682);
    lemma_pow_mod_step_exact(7, 240, 18446744069414584321, 12536486945555764682, 8519850676340941968, 8329639379454877396, 0, 8329639379454877396);
    lemma_pow_mod_step_exact(7, 481, 18446744069414584321, 8329639379454877396, 3761254123257716564, 9634757967695347772, 3, 12103073565623681441);
    lemma_pow_mod_step_exact(7, 963, 18446744069414584321, 12103073565623681441, 7940934681138419546, 7391097021356298215, 2, 14844191010664918863);
    lemma_pow_mod_step_exact(7, 1927, 18446744069414584321, 14844191010664918863, 11945197804660499710, 12415576456582165859, 4, 13122058918416823729);
    lemma_pow_mod_step_exact(7, 3855, 18446744069414584321, 13122058918416823729, 9334353510324761538, 7897896591338819743, 2, 18391788000542569559);
    lemma_pow_mod_step_exact(7, 7710, 18446744069414584321, 18391788000542569559, 18336995655387569616, 5815952681263863745, 0, 5815952681263863745);
    lemma_pow_mod_step_exact(7, 15420, 18446744069414584321, 5815952681263863745, 1833673490748103986, 15534263258852221519, 0, 15534263258852221519);
    lemma_pow_mod_step_exact(7, 30840, 18446744069414584321, 15534263258852221519, 13081622105628542398, 9621442331152125603, 0, 9621442331152125603);
    lemma_pow_mod_step_exact(7, 61680, 18446744069414584321, 9621442331152125603, 5018346445494100015, 13847347385863248794, 0, 13847347385863248794);
}

proof fn cofactor_17_part_1()
    requires
        pow_mod(7, 61680, 18446744069414584321) == 13847347385863248794,
    ensures
        pow_mod(7, 4042322160, 18446744069414584321) == 5359388630104522475,
{
    lemma_pow_mod_step_exact(7, 123361, 18446744069414584321, 13847347385863248794, 10394735726978565456, 17205675455212639060, 6, 9759263770000967494);
    lemma_pow_mod_step_exact(7, 246723, 18446744069414584321, 9759263770000967494, 5163145809041198643, 14407346328610363633, 5, 8617703953199623826);
    lemma_pow_mod_step_exact(7, 493447, 18446744069414584321, 8617703953199623826, 4025904037348594906, 18431779654498809450, 6, 18341993165004160224);
    lemma_pow_mod_step_exact(7, 986895, 18446744069414584321, 18341993165004160224, 18237837094670335858, 18143715114932847758, 6, 16325541388042428380);
    lemma_pow_mod_step_exact(7, 1973790, 18446744069414584321, 16325541388042428380, 14448257134688188654, 87681681590930466, 0, 87681681590930466);
    lemma_pow_mod_step_exact(7, 3947580, 18446744069414584321, 87681681590930466, 416771504916168, 1247600097974775228, 0, 1247600097974775228);
    lemma_pow_mod_step_exact(7, 7895160, 18446744069414584321, 1247600097974775228, 84378359596120594, 263672500424845310, 0, 263672500424845310);
    lemma_pow_mod_step_exact(7, 15790320, 18446744069414584321, 263672500424845310, 3768859546089880, 14075661776324224620, 0, 14075661776324224620);
    lemma_pow_mod_step_exact(7, 31580641, 18446744069414584321, 14075661776324224620, 10740337356876572541, 1097754007496414739, 0, 7684278052474903173);
    lemma_pow_mod_step_exact(7, 63161283, 18446744069414584321, 7684278052474903173, 3201005498073319860, 16912746553351552869, 6, 7708761456973364157);
    lemma_pow_mod_step_exact(7, 126322567, 18446744069414584321, 7708761456973364157, 3221435879248038117, 7915739019813757092, 3, 69940930452546681);
    lemma_pow_mod_step_exact(7, 252645135, 18446744069414584321, 69940930452546681, 265181418149485, 10242565372168891076, 3, 16357725396938484569);
    lemma_pow_mod_step_exact(7, 505290270, 18446744069414584321, 16357725396938484569, 14505279585100132017, 9635924811972810304, 0, 9635924811972810304);
    lemma_pow_mod_step_exact(7, 1010580540, 18446744069414584321, 9635924811972810304, 5033465343943480489, 17792655913659759447, 0, 17792655913659759447);
    lemma_pow_mod_step_exact(7, 2021161080, 18446744069414584321, 17792655913659759447, 17161760539996388258, 757864979510442991, 0, 757864979510442991);
    lemma_pow_mod_step_exact(7, 4042322160, 18446744069414584321, 757864979510442991, 31136081522412086, 5359388630104522475, 0, 5359388630104522475);
}

proof fn cofactor_17_part_2()
    requires
        pow_mod(7, 4042322160, 18446744069414584321) == 5359388630104522475,
    ensures
        pow_mod(7, 264917625077760, 18446744069414584321) == 16945016486212160087,
{
    lemma_pow_mod_step_exact(7, 8084644320, 18446744069414584321, 5359388630104522475, 1557079470523882470, 16844089689671372755, 0, 16844089689671372755);
    lemma_pow_mod_step_exact(7, 16169288640, 18446744069414584321, 16844089689671372755, 15380674031474082800, 3416859319420511225, 0, 3416859319420511225);
    lemma_pow_mod_step_exact(7, 32338577280, 18446744069414584321, 3416859319420511225, 632899093996120487, 13225002848613916298, 0, 13225002848613916298);
    lemma_pow_mod_step_exact(7, 64677154560, 18446744069414584321, 13225002848613916298, 9481385966417690571, 3046446182183887513, 0, 3046446182183887513);
    lemma_pow_mod_step_exact(7, 129354309120, 18446744069414584321, 3046446182183887513, 503115037863552653, 8471950025145571556, 0, 8471950025145571556);
    lemma_pow_mod_step_exact(7, 258708618240, 18446744069414584321, 8471950025145571556, 3890872934458282888, 14240312891968862088, 0, 14240312891968862088);
    lemma_pow_mod_step_exact(7, 517417236480, 18446744069414584321, 14240312891968862088, 10993078805565609884, 14284159170854690980, 0, 14284159170854690980);
    lemma_pow_mod_step_exact(7, 1034834472960, 18446744069414584321, 14284159170854690980, 11060878952433332310, 2140736107784648890, 0, 2140736107784648890);
    lemma_pow_mod_step_exact(7, 2069668945920, 18446744069414584321, 2140736107784648890, 248431434074663970, 720221585272617730, 0, 720221585272617730);
    lemma_pow_mod_step_exact(7, 4139337891840, 18446744069414584321, 720221585272617730, 28119820491934886, 14933742682021830494, 0, 14933742682021830494);
    lemma_pow_mod_step_exact(7, 8278675783680, 18446744069414584321, 14933742682021830494, 12089757935255948337, 16866753830962059859, 0, 16866753830962059859);
    lemma_pow_mod_step_exact(7, 16557351567360, 18446744069414584321, 16866753830962059859, 15422092035524275423, 4185523320037657098, 0, 4185523320037657098);
    lemma_pow_mod_step_exact(7, 33114703134720, 18446744069414584321, 4185523320037657098, 949685505293347548, 17086191566025186696, 0, 17086191566025186696);
    lemma_pow_mod_step_exact(7, 66229406269440, 18446744069414584321, 17086191566025186696, 15825987563569802540, 1098680059505421076, 0, 1098680059505421076);
    lemma_pow_mod_step_exact(7, 132458812538880, 18446744069414584321, 1098680059505421076, 65436906839090947, 16940429312545755789, 0, 16940429312545755789);
    lemma_pow_mod_step_exact(7, 264917625077760, 18446744069414584321, 16940429312545755789, 15557116432768227154, 16945016486212160087, 0, 16945016486212160087);
}

proof fn cofactor_17_part_3()
    requires
        pow_mod(7, 264917625077760, 18446744069414584321) == 16945016486212160087,
    ensures
        pow_mod(7, 1085102592318504960, 18446744069414584321) == 16301593560560007290,
{
    lemma_pow_mod_step_exact(7, 529835250155520, 18446744069414584321, 16945016486212160087, 15565542766654441545, 18171560771947831624, 0, 18171560771947831624);
    lemma_pow_mod_step_exact(7, 1059670500311040, 18446744069414584321, 18171560771947831624, 17900482580884665437, 14884189242943664099, 0, 14884189242943664099);
    lemma_pow_mod_step_exact(7, 2119341000622080, 18446744069414584321, 14884189242943664099, 12009658104764421268, 7182983899389742773, 0, 7182983899389742773);
    lemma_pow_mod_step_exact(7, 4238682001244160, 18446744069414584321, 7182983899389742773, 2796984525005646317, 7794706010606133772, 0, 7794706010606133772);
    lemma_pow_mod_step_exact(7, 8477364002488320, 18446744069414584321, 7794706010606133772, 3293667520032306374, 5944394147430185930, 0, 5944394147430185930);
    lemma_pow_mod_step_exact(7, 16954728004976640, 18446744069414584321, 5944394147430185930, 1915558737467952802, 11638363544692747458, 0, 11638363544692747458);
    lemma_pow_mod_step_exact(7, 33909456009953280, 18446744069414584321, 11638363544692747458, 7342840855206365294, 8942909788274506390, 0, 8942909788274506390);
    lemma_pow_mod_step_exact(7, 67818912019906560, 18446744069414584321, 8942909788274506390, 4335487887741592074, 10254463118692560346, 0, 10254463118692560346);
    lemma_pow_mod_step_exact(7, 135637824039813120, 18446744069414584321, 10254463118692560346, 5700410514556624445, 6509392022269312871, 0, 6509392022269312871);
    lemma_pow_mod_step_exact(7, 271275648079626240, 18446744069414584321, 6509392022269312871, 2297000724905057721, 3060481852759670200, 0, 3060481852759670200);
    lemma_pow_mod_step_exact(7, 542551296159252480, 18446744069414584321, 3060481852759670200, 507761648116610708, 9492362781570530732, 0, 9492362781570530732);
    lemma_pow_mod_step_exact(7, 1085102592318504960, 18446744069414584321, 9492362781570530732, 4884599192024511254, 16301593560560007290, 0, 16301593560560007290);
}

/// `7^((p-1)/17) != 1` modulo `p`.
proof fn lemma_cofactor_17()
    ensures
        pow(7, 1085102592318504960) % 18446744069414584321 == 16301593560560007290,
{
    lemma_pow_mod_zero(7, 18446744069414584321);
    cofactor_17_part_0();
    cofactor_17_part_1();
    cofactor_17_part_2();
    cofactor_17_part_3();
    lemma_pow_mod_is_pow(7, 1085102592318504960, 18446744069414584321);
}

proof fn cofactor_257_part_0()
    requires
        pow_mod(7, 0, 18446744069414584321) == 1,
    ensures
        pow_mod(7, 65280, 18446744069414584321) == 8929377406043347353,
{
    lemma_pow_mod_step_exact(7, 1, 18446744069414584321, 1, 0, 1, 0, 7);
    lemma_pow_mod_step_exact(7, 3, 18446744069414584321, 7, 0, 49, 0, 343);
    lemma_pow_mod_step_exact(7, 7, 18446744069414584321, 343, 0, 117649, 0, 823543);
    lemma_pow_mod_step_exact(7, 15, 18446744069414584321, 823543, 0, 678223072849, 0, 4747561509943);
    lemma_pow_mod_step_exact(7, 31, 18446744069414584321, 4747561509943, 1221860, 1582037354089406189, 0, 11074261478625843323);
    lemma_pow_mod_step_exact(7, 63, 18446744069414584321, 11074261478625843323, 6648288003318531524, 14911712358349047125, 5, 12148266161370408270);
    lemma_pow_mod_step_exact(7, 127, 18446744069414584321, 12148266161370408270, 8000347929811162796, 14177331716484271384, 5, 7007601668316978083);
    lemma_pow_mod_step_exact(7, 255, 18446744069414584321, 7007601668316978083, 2662067677472651718, 1160753142525841411, 0, 8125271997680889877);
    lemma_pow_mod_step_exact(7, 510, 18446744069414584321, 8125271997680889877, 3578953813630503444, 10915923311382173605, 0, 10915923311382173605);
    lemma_pow_mod_step_exact(7, 1020, 18446744069414584321, 10915923311382173605, 6459534609012346485, 8682737361258234340, 0, 8682737361258234340);
    lemma_pow_mod_step_exact(7, 2040, 18446744069414584321, 8682737361258234340, 4086896191593454428, 13168992710278412212, 0, 13168992710278412212);
    lemma_pow_mod_step_exact(7, 4080, 18446744069414584321, 13168992710278412212, 9401245463740506992, 3615243740316660512, 0, 3615243740316660512);
    lemma_pow_mod_step_exact(7, 8160, 18446744069414584321, 3615243740316660512, 708525431518798068, 9701552052102210316, 0, 9701552052102210316);
    lemma_pow_mod_step_exact(7, 16320, 18446744069414584321, 9701552052102210316, 5102261508344087520, 12082995573853045936, 0, 12082995573853045936);
    lemma_pow_mod_step_exact(7, 32640, 18446744069414584321, 12082995573853045936, 7914609835121197925, 2592469405483382171, 0, 2592469405483382171);
    lemma_pow_mod_step_exact(7, 65280, 18446744069414584321, 2592469405483382171, 364340590029156928, 8929377406043347353, 0, 8929377406043347353);
}

proof fn cofactor_257_part_1()
    requires
        pow_mod(7, 65280, 18446744069414584321) == 8929377406043347353,
    ensures
        pow_mod(7, 4278255360, 18446744069414584321) == 80652374890911913,
{
    lemma_pow_mod_step_exact(7, 130561, 18446744069414584321, 8929377406043347353, 4322376922427146017, 9795840452586307152, 3, 13230650959860397101);
    lemma_pow_mod_step_exact(7, 261123, 18446744069414584321, 13230650959860397101, 9489486283484288682, 13828748494014249279, 5, 4567519111026823348);
    lemma_pow_mod_step_exact(7, 522247, 18446744069414584321, 4567519111026823348, 1130943799680380932, 9911383694283361932, 3, 14039453651739780561);
    lemma_pow_mod_step_exact(7, 1044495, 18446744069414584321, 14039453651739780561, 10685151704693473038, 6677584045842437523, 2, 9849600182067894019);
    lemma_pow_mod_step_exact(7, 2088991, 18446744069414584321, 9849600182067894019, 5259173292670433493, 10583023550344909108, 4, 294188574756026472);
    lemma_pow_mod_step_exact(7, 4177983, 18446744069414584321, 294188574756026472, 4691717800784167, 7184320642221521177, 2, 13396756356721479597);
    lemma_pow_mod_step_exact(7, 8355967, 18446744069414584321, 13396756356721479597, 9729255211976984404, 5302980850127352725, 2, 227377812062300433);
    lemma_pow_mod_step_exact(7, 16711935, 18446744069414584321, 227377812062300433, 2802698905763024, 8373948673660040785, 3, 3277408507376532532);
    lemma_pow_mod_step_exact(7, 33423870, 18446744069414584321, 3277408507376532532, 582292814591261049, 10187910960120918295, 0, 10187910960120918295);
    lemma_pow_mod_step_exact(7, 66847740, 18446744069414584321, 10187910960120918295, 5626658522543586488, 1234511965033452377, 0, 1234511965033452377);
    lemma_pow_mod_step_exact(7, 133695480, 18446744069414584321, 1234511965033452377, 82617278478842222, 15363200638052948867, 0, 15363200638052948867);
    lemma_pow_mod_step_exact(7, 267390960, 18446744069414584321, 15363200638052948867, 12795099935083611061, 1236027695563809108, 0, 1236027695563809108);
    lemma_pow_mod_step_exact(7, 534781920, 18446744069414584321, 1236027695563809108, 82820277575915035, 12002353154524589429, 0, 12002353154524589429);
    lemma_pow_mod_step_exact(7, 1069563840, 18446744069414584321, 12002353154524589429, 7809317498190782878, 14027517171084490203, 0, 14027517171084490203);
    lemma_pow_mod_step_exact(7, 2139127680, 18446744069414584321, 14027517171084490203, 10666990187787369356, 2711851439569513933, 0, 2711851439569513933);
    lemma_pow_mod_step_exact(7, 4278255360, 18446744069414584321, 2711851439569513933, 398668632395062656, 80652374890911913, 0, 80652374890911913);
}

proof fn cofactor_257_part_2()
    requires
        pow_mod(7, 4278255360, 18446744069414584321) == 80652374890911913,
    ensures
        pow_mod(7, 280379743272960, 18446744069414584321) == 14925891398157497804,
{
    lemma_pow_mod_step_exact(7, 8556510720, 18446744069414584321, 80652374890911913, 352626216912144, 5283607704788425345, 0, 5283607704788425345);
    lemma_pow_mod_step_exact(7, 17113021440, 18446744069414584321, 5283607704788425345, 1513357060359842408, 15514810852250684057, 0, 15514810852250684057);
    lemma_pow_mod_step_exact(7, 34226042880, 18446744069414584321, 15514810852250684057, 13048880326811766543, 13397417830393806946, 0, 13397417830393806946);
    lemma_pow_mod_step_exact(7, 68452085760, 18446744069414584321, 13397417830393806946, 9730216012470005624, 16359729400225625612, 0, 16359729400225625612);
    lemma_pow_mod_step_exact(7, 136904171520, 18446744069414584321, 16359729400225625612, 14508833918955130100, 8019533974815212444, 0, 8019533974815212444);
    lemma_pow_mod_step_exact(7, 273808343040, 18446744069414584321, 8019533974815212444, 3486410660396638761, 9655755660440986855, 0, 9655755660440986855);
    lemma_pow_mod_step_exact(7, 547616686080, 18446744069414584321, 9655755660440986855, 5054204526462916814, 3604536941271117731, 0, 3604536941271117731);
    lemma_pow_mod_step_exact(7, 1095233372160, 18446744069414584321, 3604536941271117731, 704334949956318982, 17307879323250707139, 0, 17307879323250707139);
    lemma_pow_mod_step_exact(7, 2190466744320, 18446744069414584321, 17307879323250707139, 16239325787844364670, 16869139653157226251, 0, 16869139653157226251);
    lemma_pow_mod_step_exact(7, 4380933488640, 18446744069414584321, 16869139653157226251, 15426455290261550876, 6953284473670099805, 0, 6953284473670099805);
    lemma_pow_mod_step_exact(7, 8761866977280, 18446744069414584321, 6953284473670099805, 2620959275514902696, 18224581395058808609, 0, 18224581395058808609);
    lemma_pow_mod_step_exact(7, 17523733954560, 18446744069414584321, 18224581395058808609, 18005094328587610480, 12317229062629230801, 0, 12317229062629230801);
    lemma_pow_mod_step_exact(7, 35047467909120, 18446744069414584321, 12317229062629230801, 8224439565615596223, 8521080430804482018, 0, 8521080430804482018);
    lemma_pow_mod_step_exact(7, 70094935818240, 18446744069414584321, 8521080430804482018, 3936131570699640004, 1553296775282575040, 0, 1553296775282575040);
    lemma_pow_mod_step_exact(7, 140189871636480, 18446744069414584321, 1553296775282575040, 130794402688312220, 13200482976866298980, 0, 13200482976866298980);
    lemma_pow_mod_step_exact(7, 280379743272960, 18446744069414584321, 13200482976866298980, 9446260552367870276, 14925891398157497804, 0, 14925891398157497804);
}

proof fn cofactor_257_part_3()
    requires
        pow_mod(7, 280379743272960, 18446744069414584321) == 14925891398157497804,
    ensures
        pow_mod(7, 71777214277877760, 18446744069414584321) == 995085315851368103,
{
    lemma_pow_mod_step_exact(7, 560759486545920, 18446744069414584321, 14925891398157497804, 12077049109114792339, 15678887058344505597, 0, 15678887058344505597);
    lemma_pow_mod_step_exact(7, 1121518973091840, 18446744069414584321, 15678887058344505597, 13326335447777710170, 14658776698600081839, 0, 14658776698600081839);
    lemma_pow_mod_step_exact(7, 2243037946183680, 18446744069414584321, 14658776698600081839, 11648653740239158589, 16565152875265738852, 0, 16565152875265738852);
    lemma_pow_mod_step_exact(7, 4486075892367360, 18446744069414584321, 16565152875265738852, 14875486359454496296, 5984943436188102888, 0, 5984943436188102888);
    lemma_pow_mod_step_exact(7, 8972151784734720, 18446744069414584321, 5984943436188102888, 1941781584846794362, 14921717924877542342, 0, 14921717924877542342);
    lemma_pow_mod_step_exact(7, 17944303569469440, 18446744069414584321, 14921717924877542342, 12070296253461161021, 1654982787239893223, 0, 1654982787239893223);
    lemma_pow_mod_step_exact(7, 35888607138938880, 18446744069414584321, 1654982787239893223, 148479754245717577, 18353445258623017512, 0, 18353445258623017512);
    lemma_pow_mod_step_exact(7, 71777214277877760, 18446744069414584321, 18353445258623017512, 18260618328834535321, 995085315851368103, 0, 995085315851368103);
}

/// `7^((p-1)/257) != 1` modulo `p`.
proof fn lemma_cofactor_257()
    ensures
        pow(7, 71777214277877760) % 18446744069414584321 == 995085315851368103,
{
    lemma_pow_mod_zero(7, 18446744069414584321);
    cofactor_257_part_0();
    cofactor_257_part_1();
    cofactor_257_part_2();
    cofactor_257_part_3();
    lemma_pow_mod_is_pow(7, 71777214277877760, 18446744069414584321);
}

proof fn cofactor_65537_part_0()
    requires
        pow_mod(7, 0, 18446744069414584321) == 1,
    ensures
        pow_mod(7, 65535, 18446744069414584321) == 12134830135347446949,
{
    lemma_pow_mod_step_exact(7, 1, 18446744069414584321, 1, 0, 1, 0, 7);
    lemma_pow_mod_step_exact(7, 3, 18446744069414584321, 7, 0, 49, 0, 343);
    lemma_pow_mod_step_exact(7, 7, 18446744069414584321, 343, 0, 117649, 0, 823543);
    lemma_pow_mod_step_exact(7, 15, 18446744069414584321, 823543, 0, 678223072849, 0, 4747561509943);
    lemma_pow_mod_step_exact(7, 31, 18446744069414584321, 4747561509943, 1221860, 1582037354089406189, 0, 11074261478625843323);
    lemma_pow_mod_step_exact(7, 63, 18446744069414584321, 11074261478625843323, 6648288003318531524, 14911712358349047125, 5, 12148266161370408270);
    lemma_pow_mod_step_exact(7, 127, 18446744069414584321, 12148266161370408270, 8000347929811162796, 14177331716484271384, 5, 7007601668316978083);
    lemma_pow_mod_step_exact(7, 255, 18446744069414584321, 7007601668316978083, 2662067677472651718, 1160753142525841411, 0, 8125271997680889877);
    lemma_pow_mod_step_exact(7, 511, 18446744069414584321, 8125271997680889877, 3578953813630503444, 10915923311382173605, 4, 2624486902016877951);
    lemma_pow_mod_step_exact(7, 1023, 18446744069414584321, 2624486902016877951, 373395514836605044, 1179017105118043277, 0, 8253119735826302939);
    lemma_pow_mod_step_exact(7, 2047, 18446744069414584321, 8253119735826302939, 3692466546810352761, 13682469552810377440, 5, 3543566522599720475);
    lemma_pow_mod_step_exact(7, 4095, 18446744069414584321, 3543566522599720475, 680708945320558836, 12252646851770615269, 4, 11981551684735969599);
    lemma_pow_mod_step_exact(7, 8191, 18446744069414584321, 11981551684735969599, 7782272049408620407, 9343193256669382154, 3, 10062120588441922115);
    lemma_pow_mod_step_exact(7, 16383, 18446744069414584321, 10062120588441922115, 5488571335698045963, 4133221502128927102, 1, 10485806445487905393);
    lemma_pow_mod_step_exact(7, 32767, 18446744069414584321, 10485806445487905393, 5960517281450258735, 5861853314594190514, 2, 4139485063330164956);
    lemma_pow_mod_step_exact(7, 65535, 18446744069414584321, 4139485063330164956, 928908458048409263, 7004045467739516513, 2, 12134830135347446949);
}

proof fn cofactor_65537_part_1()
    requires
        pow_mod(7, 65535, 18446744069414584321) == 12134830135347446949,
    ensures
        pow_mod(7, 4294901760, 18446744069414584321) == 5214785644524920463,
{
    lemma_pow_mod_step_exact(7, 131070, 18446744069414584321, 12134830135347446949, 7982660889077413892, 618113109518621269, 0, 618113109518621269);
    lemma_pow_mod_step_exact(7, 262140, 18446744069414584321, 618113109518621269, 20711720980194856, 10057574059836717585, 0, 10057574059836717585);
    lemma_pow_mod_step_exact(7, 524280, 18446744069414584321, 10057574059836717585, 5483612478628084872, 11436575600859740313, 0, 11436575600859740313);
    lemma_pow_mod_step_exact(7, 1048560, 18446744069414584321, 11436575600859740313, 7090425333706664058, 2460531272136303351, 0, 2460531272136303351);
    lemma_pow_mod_step_exact(7, 2097120, 18446744069414584321, 2460531272136303351, 328199606303359338, 5287351674330089703, 0, 5287351674330089703);
    lemma_pow_mod_step_exact(7, 4194240, 18446744069414584321, 5287351674330089703, 1515502552799736540, 2729558173611838869, 0, 2729558173611838869);
    lemma_pow_mod_step_exact(7, 8388480, 18446744069414584321, 2729558173611838869, 403891754289820429, 5809869834850305452, 0, 5809869834850305452);
    lemma_pow_mod_step_exact(7, 16776960, 18446744069414584321, 5809869834850305452, 1829839855254994736, 4380238239217790048, 0, 4380238239217790048);
    lemma_pow_mod_step_exact(7, 33553920, 18446744069414584321, 4380238239217790048, 1040101546381711006, 10313688370767105378, 0, 10313688370767105378);
    lemma_pow_mod_step_exact(7, 67107840, 18446744069414584321, 10313688370767105378, 5766446772884207792, 1116132233887293652, 0, 1116132233887293652);
    lemma_pow_mod_step_exact(7, 134215680, 18446744069414584321, 1116132233887293652, 67532305909081485, 8201916556687100419, 0, 8201916556687100419);
    lemma_pow_mod_step_exact(7, 268431360, 18446744069414584321, 8201916556687100419, 3646791810506908108, 9569002298025400893, 0, 9569002298025400893);
    lemma_pow_mod_step_exact(7, 536862720, 18446744069414584321, 9569002298025400893, 4963792235369874951, 3860342023949954178, 0, 3860342023949954178);
    lemma_pow_mod_step_exact(7, 1073725440, 18446744069414584321, 3860342023949954178, 807852078708161850, 2518827640559301834, 0, 2518827640559301834);
    lemma_pow_mod_step_exact(7, 2147450880, 18446744069414584321, 2518827640559301834, 343935637583054772, 4408381949760333744, 0, 4408381949760333744);
    lemma_pow_mod_step_exact(7, 4294901760, 18446744069414584321, 4408381949760333744, 1053510112236812913, 5214785644524920463, 0, 5214785644524920463);
}

proof fn cofactor_65537_part_2()
    requires
        pow_mod(7, 4294901760, 18446744069414584321) == 5214785644524920463,
    ensures
        pow_mod(7, 281470681743360, 18446744069414584321) == 8478886009461009681,
{
    lemma_pow_mod_step_exact(7, 8589803520, 18446744069414584321, 5214785644524920463, 1474189115218000828, 16359673064222316581, 0, 16359673064222316581);
    lemma_pow_mod_step_exact(7, 17179607040, 18446744069414584321, 16359673064222316581, 14508733994526267725, 7241809583754189836, 0, 7241809583754189836);
    lemma_pow_mod_step_exact(7, 34359214080, 18446744069414584321, 7241809583754189836, 2842984423159417742, 12639803007403283714, 0, 12639803007403283714);
    lemma_pow_mod_step_exact(7, 68718428160, 18446744069414584321, 12639803007403283714, 8660857410108324724, 12324653451830581392, 0, 12324653451830581392);
    lemma_pow_mod_step_exact(7, 137436856320, 18446744069414584321, 12324653451830581392, 8234357355213200339, 3248773168955372845, 0, 3248773168955372845);
    lemma_pow_mod_step_exact(7, 274873712640, 18446744069414584321, 3248773168955372845, 572162060882285997, 11622038198969340988, 0, 11622038198969340988);
    lemma_pow_mod_step_exact(7, 549747425280, 18446744069414584321, 11622038198969340988, 7322255428385150589, 13512512774593501075, 0, 13512512774593501075);
    lemma_pow_mod_step_exact(7, 1099494850560, 18446744069414584321, 13512512774593501075, 9898115396217294011, 7628844061018354094, 0, 7628844061018354094);
    lemma_pow_mod_step_exact(7, 2198989701120, 18446744069414584321, 7628844061018354094, 3154988299741830395, 10832619856158324041, 0, 10832619856158324041);
    lemma_pow_mod_step_exact(7, 4397979402240, 18446744069414584321, 10832619856158324041, 6361320594380621547, 6522121551337605094, 0, 6522121551337605094);
    lemma_pow_mod_step_exact(7, 8795958804480, 18446744069414584321, 6522121551337605094, 2305993370448078927, 4924686556790045269, 0, 4924686556790045269);
    lemma_pow_mod_step_exact(7, 17591917608960, 18446744069414584321, 4924686556790045269, 1314732702495734083, 8233486007872169718, 0, 8233486007872169718);
    lemma_pow_mod_step_exact(7, 35183835217920, 18446744069414584321, 8233486007872169718, 3674919085272382902, 6861851865518519982, 0, 6861851865518519982);
    lemma_pow_mod_step_exact(7, 70367670435840, 18446744069414584321, 6861851865518519982, 2552483562797879524, 16452032933035937120, 0, 16452032933035937120);
    lemma_pow_mod_step_exact(7, 140735340871680, 18446744069414584321, 16452032933035937120, 14673016908088369982, 7318164361609642178, 0, 7318164361609642178);
    lemma_pow_mod_step_exact(7, 281470681743360, 18446744069414584321, 7318164361609642178, 2903251078998304243, 8478886009461009681, 0, 8478886009461009681);
}

/// `7^((p-1)/65537) != 1` modulo `p`.
proof fn lemma_cofactor_65537()
    ensures
        pow(7, 281470681743360) % 18446744069414584321 == 8478886009461009681,
{
    lemma_pow_mod_zero(7, 18446744069414584321);
    cofactor_65537_part_0();
    cofactor_65537_part_1();
    cofactor_65537_part_2();
    lemma_pow_mod_is_pow(7, 281470681743360, 18446744069414584321);
}


/// A prime dividing `2^e x` is `2` or divides `x`.
proof fn lemma_prime_peel_pow2(s: nat, e: nat, x: int)
    requires
        is_prime(s),
        ((pow2(e) as int) * x) % (s as int) == 0,
    ensures
        s == 2 || x % (s as int) == 0,
    decreases e,
{
    if e == 0 {
        vstd::arithmetic::power2::lemma2_to64();
    } else {
        lemma_pow2_unfold(e);
        let y = (pow2((e - 1) as nat) as int) * x;
        assert((pow2(e) as int) * x == 2 * y) by (nonlinear_arith)
            requires
                pow2(e) == 2 * pow2((e - 1) as nat),
                y == (pow2((e - 1) as nat) as int) * x,
        ;
        lemma_prime_2();
        lemma_prime_peel(s, 2, y);
        if s != 2 {
            lemma_prime_peel_pow2(s, (e - 1) as nat, x);
        }
    }
}

/// `7` generates the multiplicative group: its order modulo `p` is `p - 1`.
pub proof fn lemma_generator_order()
    ensures
        is_order(7, MODULUS as int, group_order()),
{
    let m = MODULUS as int;
    let n = group_order();
    lemma_generator_half_order();
    let o = lemma_order_exists(7, m, n);
    lemma_order_divides(7, m, o, n);
    lemma_fundamental_div_mod(n as int, o as int);
    let c = n / o;
    assert(n == o * c);
    if c != 1 {
        if c == 0 {
            assert(o * 0 == 0);
        }
        let s = lemma_least_divisor(c);
        lemma_fundamental_div_mod(c as int, s as int);
        let t = c / s;
        assert(n == s * (o * t)) by (nonlinear_arith)
            requires
                n == o * c,
                c == s * t,
        ;
        vstd::arithmetic::div_mod::lemma_mod_multiples_basic((o * t) as int, s as int);
        assert((n as int) % (s as int) == 0) by (nonlinear_arith)
            requires
                n == s * (o * t),
                (((o * t) as int) * (s as int)) % (s as int) == 0,
        ;
        // The prime `s` divides `p - 1 = 2^32 * 3 * 5 * 17 * 257 * 65537`.
        vstd::arithmetic::power2::lemma2_to64();
        assert(n == (pow2(32) as int) * 4294967295);
        lemma_prime_3();
        lemma_prime_5();
        lemma_prime_17();
        lemma_prime_257();
        lemma_prime_65537();
        lemma_prime_peel_pow2(s, 32, 4294967295);
        if s != 2 {
            lemma_prime_peel(s, 3, 1431655765);
            if s != 3 {
                lemma_prime_peel(s, 5, 286331153);
                if s != 5 {
                    lemma_prime_peel(s, 17, 16843009);
                    if s != 17 {
                        lemma_prime_peel(s, 257, 65537);
                        if s != 257 {
                            lemma_prime_divides_prime(s, 65537);
                        }
                    }
                }
            }
        }
        // Then `7^((p-1)/s) = 1`, against the computed cofactor powers.
        vstd::arithmetic::div_mod::lemma_div_multiples_vanish((o * t) as int, s as int);
        assert(n / s == o * t);
        lemma_pow_one_mult(7, m, o, t);
        if s == 2 {
            assert(n / s == n / 2);
        }
        if s == 3 {
            lemma_cofactor_3();
            vstd::arithmetic::div_mod::lemma_fundamental_div_mod_converse_div(n as int, s as int, 6148914689804861440, 0);
        }
        if s == 5 {
            lemma_cofactor_5();
            vstd::arithmetic::div_mod::lemma_fundamental_div_mod_converse_div(n as int, s as int, 3689348813882916864, 0);
        }
        if s == 17 {
            lemma_cofactor_17();
            vstd::arithmetic::div_mod::lemma_fundamental_div_mod_converse_div(n as int, s as int, 1085102592318504960, 0);
        }
        if s == 257 {
            lemma_cofactor_257();
            vstd::arithmetic::div_mod::lemma_fundamental_div_mod_converse_div(n as int, s as int, 71777214277877760, 0);
        }
        if s == 65537 {
            lemma_cofactor_65537();
            vstd::arithmetic::div_mod::lemma_fundamental_div_mod_converse_div(n as int, s as int, 281470681743360, 0);
        }
        assert(false);
    }
    assert(o == n) by (nonlinear_arith)
        requires
            n == o * c,
            c == 1,
    ;
}

/// Every non-zero residue modulo `p` is a power `7^i` with `i < p - 1`.
pub proof fn lemma_discrete_log(x: int) -> (i: nat)
    requires
        1 <= x < MODULUS,
    ensures
        i < group_order(),
        pow(7, i) % (MODULUS as int) == x,
{
    let m = MODULUS as int;
    let n = group_order();
    lemma_generator_order();
    let f = |j: int| pow(7, j as nat) % m;
    assert forall|j: int| 0 <= j < n implies 1 <= #[trigger] f(j) < m by {
        lemma_order_power_nonzero(7, m, n, j as nat);
        lemma_mod_bound(pow(7, j as nat), m);
    }
    assert forall|j: int, k: int| 0 <= j < k < n implies #[trigger] f(j) != #[trigger] f(k) by {
        lemma_order_powers_distinct(7, m, n, j as nat, k as nat);
    }
    lemma_pigeonhole(f, n as int, 1, m);
    assert(hits(f, n as int, x));
    let j = choose|j: int| 0 <= j < n && #[trigger] f(j) == x;
    j as nat
}

/// Fermat's little theorem: `x^(p-1) = 1` modulo `p` for every `x` that
/// `p` does not divide.
pub proof fn lemma_fermat(x: int)
    requires
        x % (MODULUS as int) != 0,
    ensures
        pow(x, group_order()) % (MODULUS as int) == 1,
{
    let m = MODULUS as int;
    let n = group_order();
    let y = x % m;
    lemma_mod_bound(x, m);
    let i = lemma_discrete_log(y);
    lemma_generator_order();
    lemma_pow_mod_noop(x, n, m);
    lemma_pow_mod_noop(pow(7, i), n, m);
    lemma_pow_multiplies(7, i, n);
    lemma_pow_one_mult(7, m, n, i);
    assert(i * n == n * i) by (nonlinear_arith);
}


/// `x^(p-2)` inverts every `x` that `p` does not divide:
/// `x * x^(p-2) = x^(p-1) = 1` modulo `p`.
pub proof fn lemma_inv_val_correct(x: int)
    requires
        fmod(x) != 0,
    ensures
        fmod(x * inv_val(x)) == 1,
{
    let m = MODULUS as int;
    let e = (MODULUS - 2) as nat;
    lemma_fermat(x);
    lemma_pow_adds(x, 1, e);
    vstd::arithmetic::power::lemma_pow1(x);
    assert(1 + e == group_order());
    lemma_mul_mod_noop_general(x, pow(x, e), m);
}


/// The zero-product property: `a b = 0` modulo `p` only if `a = 0` or
/// `b = 0` modulo `p`.
pub proof fn lemma_no_zero_divisors(a: int, b: int)
    requires
        fmod(a * b) == 0,
    ensures
        fmod(a) == 0 || fmod(b) == 0,
{
    let m = MODULUS as int;
    if fmod(a) != 0 {
        lemma_inv_val_correct(a);
        let ia = inv_val(a);
        lemma_mul_mod_noop_general(a * ia, b, m);
        lemma_mul_mod_noop_general(ia, a * b, m);
        assert((a * ia) * b == ia * (a * b)) by (nonlinear_arith);
        assert(ia * 0 == 0);
        assert(1 * b == b);
    }
}


/// The root of unity `7^((p-1)/2^k)` is primitive: its order modulo `p` is
/// exactly `2^k`.
pub proof fn lemma_root_of_unity_order(k: nat)
    requires
        k <= 32,
    ensures
        is_order(root_of_unity_val(k), MODULUS as int, pow2(k)),
{
    let m = MODULUS as int;
    let w = root_of_unity_val(k);
    let n = pow2(k);
    lemma_root_of_unity_facts(k);
    vstd::arithmetic::power2::lemma_pow2_pos(k);
    let o = lemma_order_exists(w, m, n);
    lemma_order_divides(w, m, o, n);
    lemma_fundamental_div_mod(n as int, o as int);
    let c = n / o;
    assert(n == o * c);
    if c != 1 {
        if c == 0 {
            assert(o * 0 == 0);
        }
        let s = lemma_least_divisor(c);
        lemma_fundamental_div_mod(c as int, s as int);
        let t = c / s;
        assert(n == s * (o * t)) by (nonlinear_arith)
            requires
                n == o * c,
                c == s * t,
        ;
        vstd::arithmetic::div_mod::lemma_mod_multiples_basic((o * t) as int, s as int);
        assert(((n as int) * 1) % (s as int) == 0) by (nonlinear_arith)
            requires
                n == s * (o * t),
                (((o * t) as int) * (s as int)) % (s as int) == 0,
        ;
        lemma_prime_peel_pow2(s, k, 1);
        if s != 2 {
            lemma_small_mod(1, s);
        }
        assert(s == 2);
        if k == 0 {
            vstd::arithmetic::power2::lemma2_to64();
            assert(o * t >= 1) by (nonlinear_arith)
                requires
                    o >= 1,
                    c == 2 * t,
                    c >= 2,
            ;
        }
        lemma_pow2_unfold(k);
        assert(pow2((k - 1) as nat) == o * t) by (nonlinear_arith)
            requires
                n == 2 * (o * t),
                n == 2 * pow2((k - 1) as nat),
        ;
        lemma_pow_one_mult(w, m, o, t);
        assert(false);
    }
    assert(o == n) by (nonlinear_arith)
        requires
            n == o * c,
            c == 1,
    ;
}


/// Powers of a non-zero residue are non-zero.
pub proof fn lemma_pow_nonzero(x: int, l: nat)
    requires
        fmod(x) != 0,
    ensures
        fmod(pow(x, l)) != 0,
    decreases l,
{
    if l == 0 {
        vstd::arithmetic::power::lemma_pow0(x);
        lemma_small_mod(1, MODULUS as nat);
    } else {
        lemma_pow_nonzero(x, (l - 1) as nat);
        lemma_pow_adds(x, 1, (l - 1) as nat);
        vstd::arithmetic::power::lemma_pow1(x);
        if fmod(pow(x, l)) == 0 {
            lemma_no_zero_divisors(x, pow(x, (l - 1) as nat));
        }
    }
}

} // verus!
